#include <metal_stdlib>
using namespace metal;

// out = a + b, one thread per number.
kernel void vadd(device const float* a [[buffer(0)]],
                 device const float* b [[buffer(1)]],
                 device float* out [[buffer(2)]],
                 uint i [[thread_position_in_grid]]) {
    out[i] = a[i] + b[i];
}

// One threadgroup of one simdgroup per output row: the lanes stride across the
// row, and the sum of their parts is the row's inner product.
kernel void matvec_f32(device const float* w [[buffer(0)]],
                       device const float* x [[buffer(1)]],
                       device float* out [[buffer(2)]],
                       constant uint& cols [[buffer(3)]],
                       uint row [[threadgroup_position_in_grid]],
                       uint lane [[thread_index_in_simdgroup]],
                       uint width [[threads_per_simdgroup]]) {
    device const float* r = w + ulong(row) * cols;
    float sum = 0.0f;
    for (uint k = lane; k < cols; k += width) {
        sum += r[k] * x[k];
    }
    sum = simd_sum(sum);
    if (lane == 0) {
        out[row] = sum;
    }
}

// Q8_0: blocks of 32, a half-precision scale and 32 signed bytes.
kernel void matvec_q8_0(device const uchar* w [[buffer(0)]],
                        device const float* x [[buffer(1)]],
                        device float* out [[buffer(2)]],
                        constant uint& cols [[buffer(3)]],
                        uint row [[threadgroup_position_in_grid]],
                        uint lane [[thread_index_in_simdgroup]],
                        uint width [[threads_per_simdgroup]]) {
    uint blocks = cols / 32;
    device const uchar* r = w + ulong(row) * blocks * 34;
    float sum = 0.0f;
    for (uint k = lane; k < cols; k += width) {
        device const uchar* b = r + ulong(k / 32) * 34;
        ushort bits = ushort(b[0]) | (ushort(b[1]) << 8);
        float d = float(as_type<half>(bits));
        sum += d * float(as_type<char>(b[2 + k % 32])) * x[k];
    }
    sum = simd_sum(sum);
    if (lane == 0) {
        out[row] = sum;
    }
}

// Q4_0: blocks of 32, a half-precision scale and 16 bytes of two nibbles; the
// low ones are the first half of the block, the high ones the second.
kernel void matvec_q4_0(device const uchar* w [[buffer(0)]],
                        device const float* x [[buffer(1)]],
                        device float* out [[buffer(2)]],
                        constant uint& cols [[buffer(3)]],
                        uint row [[threadgroup_position_in_grid]],
                        uint lane [[thread_index_in_simdgroup]],
                        uint width [[threads_per_simdgroup]]) {
    uint blocks = cols / 32;
    device const uchar* r = w + ulong(row) * blocks * 18;
    float sum = 0.0f;
    for (uint k = lane; k < cols; k += width) {
        device const uchar* b = r + ulong(k / 32) * 18;
        ushort bits = ushort(b[0]) | (ushort(b[1]) << 8);
        float d = float(as_type<half>(bits));
        uint j = k % 32;
        uchar packed = b[2 + j % 16];
        int q = (j < 16 ? (packed & 0x0F) : (packed >> 4)) - 8;
        sum += d * float(q) * x[k];
    }
    sum = simd_sum(sum);
    if (lane == 0) {
        out[row] = sum;
    }
}
