//! The forward pass: runs the plan, operation by operation, on the caller's
//! arithmetic.

use vstd::prelude::*;

use crate::gguf::{GgufFile, Vector};
use crate::kv_cache::{appended, KvCache};
use crate::math::kernels::Kernels;
use crate::math::ops::{accumulate, gated_by, normed, rmsnorm, summed, swiglu};
use crate::math::quant::{embed, row_values};
use crate::math::rope::{rope, rotated};
use crate::model::attention::{attend, attended};
use crate::model::config::Config;
use crate::model::llama::Model;
use crate::model::plan::{
    buf_len, buffer_len, lemma_layer_count, mat_in, mat_of, norm_in, norm_of, plan,
    plan_fits_weights, plan_of, plan_reads_what_was_set, reads, set_before, sets, shaped, Buf, Mat,
    Norm, Op,
};
use crate::model::weights::{weights_of, Matrix, WeightError, Weights, WeightsView};

verus! {

/// The buffers of a forward pass.
pub struct Buffers<T> {
    pub x: Vec<T>,
    pub normed: Vec<T>,
    pub q: Vec<T>,
    pub k: Vec<T>,
    pub v: Vec<T>,
    pub att: Vec<T>,
    pub proj: Vec<T>,
    pub gate: Vec<T>,
    pub up: Vec<T>,
    pub glu: Vec<T>,
    pub down: Vec<T>,
    pub last: Vec<T>,
    pub logits: Vec<T>,
}

impl<T> Buffers<T> {
    /// What is in a buffer.
    pub open spec fn at(&self, b: Buf) -> Seq<T> {
        match b {
            Buf::X => self.x@,
            Buf::Normed => self.normed@,
            Buf::Q => self.q@,
            Buf::K => self.k@,
            Buf::V => self.v@,
            Buf::Att => self.att@,
            Buf::Proj => self.proj@,
            Buf::Gate => self.gate@,
            Buf::Up => self.up@,
            Buf::Glu => self.glu@,
            Buf::Down => self.down@,
            Buf::Last => self.last@,
            Buf::Logits => self.logits@,
        }
    }

    /// Empty buffers.
    fn new() -> (r: Buffers<T>)
        ensures
            forall|b: Buf| (#[trigger] r.at(b)).len() == 0,
    {
        Buffers {
            x: Vec::new(),
            normed: Vec::new(),
            q: Vec::new(),
            k: Vec::new(),
            v: Vec::new(),
            att: Vec::new(),
            proj: Vec::new(),
            gate: Vec::new(),
            up: Vec::new(),
            glu: Vec::new(),
            down: Vec::new(),
            last: Vec::new(),
            logits: Vec::new(),
        }
    }

    fn get(&self, b: Buf) -> (s: &[T])
        ensures
            s@ == self.at(b),
    {
        match b {
            Buf::X => self.x.as_slice(),
            Buf::Normed => self.normed.as_slice(),
            Buf::Q => self.q.as_slice(),
            Buf::K => self.k.as_slice(),
            Buf::V => self.v.as_slice(),
            Buf::Att => self.att.as_slice(),
            Buf::Proj => self.proj.as_slice(),
            Buf::Gate => self.gate.as_slice(),
            Buf::Up => self.up.as_slice(),
            Buf::Glu => self.glu.as_slice(),
            Buf::Down => self.down.as_slice(),
            Buf::Last => self.last.as_slice(),
            Buf::Logits => self.logits.as_slice(),
        }
    }

    fn put(&mut self, b: Buf, v: Vec<T>)
        ensures
            final(self).at(b) == v@,
            only(*old(self), *final(self), b),
    {
        match b {
            Buf::X => self.x = v,
            Buf::Normed => self.normed = v,
            Buf::Q => self.q = v,
            Buf::K => self.k = v,
            Buf::V => self.v = v,
            Buf::Att => self.att = v,
            Buf::Proj => self.proj = v,
            Buf::Gate => self.gate = v,
            Buf::Up => self.up = v,
            Buf::Glu => self.glu = v,
            Buf::Down => self.down = v,
            Buf::Last => self.last = v,
            Buf::Logits => self.logits = v,
        }
    }
}

/// Whether nothing but buffer `b` changed.
pub open spec fn only<T>(before: Buffers<T>, after: Buffers<T>, b: Buf) -> bool {
    forall|c: Buf| c != b ==> #[trigger] after.at(c) == before.at(c)
}

/// The matrix of a projection.
pub open spec fn bound_mat<'a>(w: Weights<'a>, m: Mat) -> Matrix<'a> {
    match m {
        Mat::Q(l) => w.layers@[l as int].attn_q,
        Mat::K(l) => w.layers@[l as int].attn_k,
        Mat::V(l) => w.layers@[l as int].attn_v,
        Mat::AttnOutput(l) => w.layers@[l as int].attn_output,
        Mat::Gate(l) => w.layers@[l as int].ffn_gate,
        Mat::Up(l) => w.layers@[l as int].ffn_up,
        Mat::Down(l) => w.layers@[l as int].ffn_down,
        Mat::Output => w.output,
    }
}

fn mat<'w, 'a>(w: &'w Weights<'a>, m: Mat) -> (r: &'w Matrix<'a>)
    requires
        mat_in(w.layers@.len() as int, m),
    ensures
        *r == bound_mat(*w, m),
        r@ == mat_of(w@, m),
{
    match m {
        Mat::Q(l) => &w.layers[l].attn_q,
        Mat::K(l) => &w.layers[l].attn_k,
        Mat::V(l) => &w.layers[l].attn_v,
        Mat::AttnOutput(l) => &w.layers[l].attn_output,
        Mat::Gate(l) => &w.layers[l].ffn_gate,
        Mat::Up(l) => &w.layers[l].ffn_up,
        Mat::Down(l) => &w.layers[l].ffn_down,
        Mat::Output => &w.output,
    }
}

fn norm<'w, 'a>(w: &'w Weights<'a>, n: Norm) -> (r: &'w Vector<'a>)
    requires
        norm_in(w.layers@.len() as int, n),
    ensures
        r@ == norm_of(w@, n),
{
    match n {
        Norm::Attn(l) => &w.layers[l].attn_norm,
        Norm::Ffn(l) => &w.layers[l].ffn_norm,
        Norm::Output => &w.output_norm,
    }
}

/// What a forward pass works on.
pub struct Pass<'p, 'a, K> {
    pub kernels: &'p K,
    pub cfg: Config,
    pub weights: &'p Weights<'a>,
    pub token: u32,
    pub pos: usize,
}

/// A moment of a forward pass: its buffers, and the cache.
pub struct Moment<T> {
    pub bufs: Buffers<T>,
    pub kv: KvCache<T>,
}

impl<'p, 'a, K: Kernels> Pass<'p, 'a, K> {
    /// Whether `v` is what the arithmetic gives for the product of a weight
    /// matrix and a buffer.
    pub open spec fn multiplied(
        self,
        mat: Mat,
        src: Buf,
        before: Moment<K::Num>,
        v: Seq<K::Num>,
    ) -> bool {
        exists|x: &[K::Num], r: Vec<K::Num>| #[trigger]
            call_ensures(
                K::matvec,
                (self.kernels, mat, &bound_mat(*self.weights, mat), x),
                r,
            ) && x@ == before.bufs.at(src) && r@ == v
    }

    /// The buffer that an operation changes, if it changes one.
    pub open spec fn target(self, op: Op) -> Option<Buf> {
        match op {
            Op::Embed => Some(Buf::X),
            Op::RmsNorm { dst, .. } => Some(dst),
            Op::MatVec { dst, .. } => Some(dst),
            Op::Rope { buf, .. } => Some(buf),
            Op::Append { .. } => None,
            Op::Attend { .. } => Some(Buf::Att),
            Op::Accumulate { dst, .. } => Some(dst),
            Op::SwiGlu => Some(Buf::Glu),
        }
    }

    /// Whether `out` is what an operation puts into the buffer that it changes.
    pub open spec fn made(self, op: Op, before: Moment<K::Num>, out: Seq<K::Num>) -> bool {
        match op {
            Op::Embed => row_values(
                self.kernels,
                self.weights.token_embd@,
                self.token as int,
                out,
            ),
            Op::RmsNorm { norm, src, .. } => normed(
                self.kernels,
                before.bufs.at(src),
                norm_of(self.weights@, norm),
                self.cfg.rms_eps,
                out,
            ),
            Op::MatVec { mat, src, dst } => self.multiplied(mat, src, before, out) && out.len()
                == buf_len(self.cfg, dst),
            Op::Rope { buf, heads } => rotated(
                self.kernels,
                self.pos,
                self.cfg.head_len() as usize,
                self.cfg.rope_freq_base,
                heads as int,
                before.bufs.at(buf),
                out,
            ),
            Op::Attend { layer } => attended(
                self.kernels,
                self.cfg,
                before.kv,
                layer as int,
                before.bufs.at(Buf::Q),
                out,
            ),
            Op::Accumulate { src, dst } => summed(
                self.kernels,
                before.bufs.at(dst),
                before.bufs.at(src),
                out,
            ),
            Op::SwiGlu => gated_by(
                self.kernels,
                before.bufs.at(Buf::Gate),
                before.bufs.at(Buf::Up),
                out,
            ),
            Op::Append { .. } => false,
        }
    }

    /// Whether an operation leads from one moment to the next.
    pub open spec fn stepped(self, op: Op, before: Moment<K::Num>, after: Moment<K::Num>) -> bool {
        match op {
            Op::Append { layer } => after.bufs == before.bufs && appended(
                before.kv,
                after.kv,
                layer as int,
                before.bufs.at(Buf::K),
                before.bufs.at(Buf::V),
            ),
            _ => {
                let b = self.target(op)->0;
                &&& after.kv == before.kv
                &&& only(before.bufs, after.bufs, b)
                &&& self.made(op, before, after.bufs.at(b))
            },
        }
    }

    /// Whether the arithmetic gives the wrong number of numbers for an
    /// operation.
    pub open spec fn misfit(self, op: Op, before: Moment<K::Num>) -> bool {
        match op {
            Op::MatVec { mat, src, dst } => exists|v: Seq<K::Num>| #[trigger]
                self.multiplied(mat, src, before, v) && v.len() != buf_len(self.cfg, dst),
            _ => false,
        }
    }

    /// Whether the moments are those of a run of the plan as far as they go:
    /// the first has empty buffers and the cache `before`, each operation leads
    /// to the next, and the last has the cache `after`.
    pub open spec fn ran(
        self,
        before: KvCache<K::Num>,
        after: KvCache<K::Num>,
        moments: Seq<Moment<K::Num>>,
    ) -> bool {
        &&& 0 < moments.len() <= plan_of(self.cfg).len() + 1
        &&& moments[0].kv == before
        &&& forall|b: Buf| (#[trigger] moments[0].bufs.at(b)).len() == 0
        &&& forall|i: int|
            0 <= i < moments.len() - 1 ==> self.stepped(
                #[trigger] plan_of(self.cfg)[i],
                moments[i],
                moments[i + 1],
            )
        &&& moments.last().kv == after
    }

    /// Whether `r` is what comes out of a run: the logits behind the last
    /// operation, or the place of an operation that could not be done.
    pub open spec fn outcome(
        self,
        moments: Seq<Moment<K::Num>>,
        r: Result<Vec<K::Num>, usize>,
    ) -> bool {
        let ops = plan_of(self.cfg);
        match r {
            Ok(logits) => {
                &&& moments.len() == ops.len() + 1
                &&& logits@ == moments.last().bufs.at(Buf::Logits)
            },
            Err(i) => {
                &&& moments.len() == i + 1 <= ops.len()
                &&& self.misfit(ops[i as int], moments.last())
            },
        }
    }

    /// Whether the pass is one for a token at a position.
    pub open spec fn is_for(self, k: &K, cfg: Config, token: u32, pos: usize) -> bool {
        self.kernels == k && self.cfg == cfg && self.token == token && self.pos == pos
    }

    /// Whether the weights are those of the file, and the token has a row in
    /// them.
    spec fn bound(self, g: GgufFile) -> bool {
        &&& self.cfg.heads_divide()
        &&& self.token < self.cfg.vocab_size
        &&& weights_of(g, self.cfg) == Ok::<WeightsView, WeightError>(self.weights@)
    }

    /// Whether an operation can run: its weights and buffers fit.
    spec fn ready(self, op: Op, bufs: Buffers<K::Num>, kv: KvCache<K::Num>) -> bool {
        &&& self.cfg.heads_divide()
        &&& self.token < self.cfg.vocab_size
        &&& self.weights.layers@.len() == self.cfg.n_layer
        &&& kv.wf()
        &&& kv.layers() == self.cfg.n_layer
        &&& kv.heads() == self.cfg.n_head_kv
        &&& kv.dim() == self.cfg.head_len()
        &&& shaped(self.cfg, self.weights@, op)
        &&& forall|b: Buf| reads(op, b) ==> (#[trigger] bufs.at(b)).len() == buf_len(self.cfg, b)
    }

    /// Runs one operation; `false` if the arithmetic gave the wrong number of
    /// numbers, and nothing was changed.
    fn step(&self, op: Op, bufs: &mut Buffers<K::Num>, kv: &mut KvCache<K::Num>) -> (ok: bool)
        requires
            self.ready(op, *old(bufs), *old(kv)),
        ensures
            ok ==> self.stepped(
                op,
                (Moment { bufs: *old(bufs), kv: *old(kv) }),
                (Moment { bufs: *final(bufs), kv: *final(kv) }),
            ),
            !ok ==> *final(bufs) == *old(bufs) && *final(kv) == *old(kv) && self.misfit(
                op,
                (Moment { bufs: *old(bufs), kv: *old(kv) }),
            ),
    {
        let ghost before = Moment { bufs: *bufs, kv: *kv };
        let (k, c) = (self.kernels, &self.cfg);
        match op {
            Op::Embed => {
                let v: Vec<K::Num> = embed(k, &self.weights.token_embd, self.token as usize);
                bufs.put(Buf::X, v);
            },
            Op::RmsNorm { norm: n, src, dst } => {
                let v: Vec<K::Num> = rmsnorm(k, bufs.get(src), norm(self.weights, n), c.rms_eps);
                bufs.put(dst, v);
            },
            Op::MatVec { mat: m, src, dst } => {
                let x: &[K::Num] = bufs.get(src);
                let v: Vec<K::Num> = k.matvec(m, mat(self.weights, m), x);
                assert(self.multiplied(m, src, before, v@));
                if v.len() != buffer_len(c, dst) {
                    return false;
                }
                bufs.put(dst, v);
            },
            Op::Rope { buf, heads } => {
                let v: Vec<K::Num> = rope(
                    k,
                    bufs.get(buf),
                    self.pos,
                    heads,
                    c.head_dim(),
                    c.rope_freq_base,
                );
                bufs.put(buf, v);
            },
            Op::Append { layer } => {
                kv.append(layer, bufs.get(Buf::K), bufs.get(Buf::V));
            },
            Op::Attend { layer } => {
                let v: Vec<K::Num> = attend(k, c, kv, layer, bufs.get(Buf::Q));
                bufs.put(Buf::Att, v);
            },
            Op::Accumulate { src, dst } => {
                let v: Vec<K::Num> = accumulate(k, bufs.get(dst), bufs.get(src));
                bufs.put(dst, v);
            },
            Op::SwiGlu => {
                let v: Vec<K::Num> = swiglu(k, bufs.get(Buf::Gate), bufs.get(Buf::Up));
                bufs.put(Buf::Glu, v);
            },
        }
        true
    }

    /// Buffers keep their lengths: after an operation, a buffer that it set, or
    /// that had its length before, has its length.
    proof fn lemma_lengths(self, op: Op, before: Moment<K::Num>, after: Moment<K::Num>, b: Buf)
        requires
            self.ready(op, before.bufs, before.kv),
            self.stepped(op, before, after),
            sets(op, b) || before.bufs.at(b).len() == buf_len(self.cfg, b),
        ensures
            after.bufs.at(b).len() == buf_len(self.cfg, b),
    {
        match op {
            Op::Append { .. } => {},
            Op::Attend { .. } => {
                assert(before.bufs.at(Buf::Q).len() == buf_len(self.cfg, Buf::Q));
            },
            Op::SwiGlu => {
                assert(before.bufs.at(Buf::Gate).len() == buf_len(self.cfg, Buf::Gate));
            },
            _ => {},
        }
    }

    /// What holds after the first operations of the plan: the moments lead from
    /// the cache at the start to the last one, and every buffer that was set
    /// has its length.
    #[verifier::opaque]
    spec fn so_far(self, start: KvCache<K::Num>, moments: Seq<Moment<K::Num>>) -> bool {
        let (i, now) = (moments.len() - 1, moments.last());
        &&& self.ran(start, now.kv, moments)
        &&& now.kv.wf()
        &&& now.kv.layers() == self.cfg.n_layer
        &&& now.kv.heads() == self.cfg.n_head_kv
        &&& now.kv.dim() == self.cfg.head_len()
        &&& forall|b: Buf|
            set_before(plan_of(self.cfg), i, b) ==> (#[trigger] now.bufs.at(b)).len() == buf_len(
                self.cfg,
                b,
            )
    }

    proof fn lemma_ready(self, g: GgufFile, start: KvCache<K::Num>, moments: Seq<Moment<K::Num>>)
        requires
            self.bound(g),
            self.so_far(start, moments),
            0 < moments.len() <= plan_of(self.cfg).len(),
        ensures
            self.ready(
                plan_of(self.cfg)[moments.len() - 1],
                moments.last().bufs,
                moments.last().kv,
            ),
    {
        reveal(Pass::so_far);
        let (i, now) = (moments.len() - 1, moments.last());
        let op = plan_of(self.cfg)[i];
        plan_fits_weights(g, self.cfg, self.weights@, i);
        lemma_layer_count(g, self.cfg, self.weights@);
        assert forall|b: Buf| reads(op, b) implies (#[trigger] now.bufs.at(b)).len() == buf_len(
            self.cfg,
            b,
        ) by {
            plan_reads_what_was_set(self.cfg, i, b);
        }
    }

    proof fn lemma_advanced(
        self,
        g: GgufFile,
        start: KvCache<K::Num>,
        moments: Seq<Moment<K::Num>>,
        after: Moment<K::Num>,
    )
        requires
            self.bound(g),
            self.so_far(start, moments),
            0 < moments.len() <= plan_of(self.cfg).len(),
            self.stepped(plan_of(self.cfg)[moments.len() - 1], moments.last(), after),
        ensures
            self.so_far(start, moments.push(after)),
    {
        self.lemma_ready(g, start, moments);
        reveal(Pass::so_far);
        let (i, before, ops) = (moments.len() - 1, moments.last(), plan_of(self.cfg));
        let more = moments.push(after);
        assert forall|b: Buf| set_before(ops, i + 1, b) implies (#[trigger] after.bufs.at(b)).len()
            == buf_len(self.cfg, b) by {
            let j = choose|j: int| 0 <= j < i + 1 && sets(#[trigger] ops[j], b);
            if j < i {
                assert(set_before(ops, i, b));
                assert(before.bufs.at(b).len() == buf_len(self.cfg, b));
            }
            self.lemma_lengths(ops[i], before, after, b);
        }
        assert(self.ran(start, after.kv, more)) by {
            assert forall|j: int| 0 <= j < more.len() - 1 implies self.stepped(
                #[trigger] ops[j],
                more[j],
                more[j + 1],
            ) by {
                assert(more[j] == moments[j]);
                if j < i {
                    assert(more[j + 1] == moments[j + 1]);
                }
            }
            assert(more[0] == moments[0]);
        }
        assert(after.kv.wf() && after.kv.layers() == self.cfg.n_layer && after.kv.heads()
            == self.cfg.n_head_kv && after.kv.dim() == self.cfg.head_len());
    }

    proof fn lemma_finished(
        self,
        g: GgufFile,
        start: KvCache<K::Num>,
        moments: Seq<Moment<K::Num>>,
        r: Result<Vec<K::Num>, usize>,
    )
        requires
            self.bound(g),
            self.so_far(start, moments),
            self.outcome(moments, r),
        ensures
            moments.last().kv.wf(),
            moments.last().kv.layers() == self.cfg.n_layer,
            moments.last().kv.heads() == self.cfg.n_head_kv,
            moments.last().kv.dim() == self.cfg.head_len(),
            forwarded(g, self, start, moments.last().kv, moments, r),
    {
        reveal(Pass::so_far);
        reveal(forwarded);
    }

    /// Runs the plan on empty buffers and returns the logits, or the place of
    /// the operation for which the arithmetic gave the wrong number of numbers.
    fn run(&self, g: &GgufFile<'_>, kv: &mut KvCache<K::Num>) -> (r: Result<Vec<K::Num>, usize>)
        requires
            self.bound(*g),
            old(kv).wf(),
            old(kv).layers() == self.cfg.n_layer,
            old(kv).heads() == self.cfg.n_head_kv,
            old(kv).dim() == self.cfg.head_len(),
        ensures
            final(kv).wf(),
            final(kv).layers() == self.cfg.n_layer,
            final(kv).heads() == self.cfg.n_head_kv,
            final(kv).dim() == self.cfg.head_len(),
            exists|moments: Seq<Moment<K::Num>>| #[trigger]
                forwarded(*g, *self, *old(kv), *final(kv), moments, r),
    {
        let ops: Vec<Op> = plan(&self.cfg);
        let mut bufs: Buffers<K::Num> = Buffers::new();
        let ghost start = *kv;
        let ghost mut moments: Seq<Moment<K::Num>> = seq![Moment { bufs, kv: *kv }];
        let mut i: usize = 0;
        assert(self.so_far(start, moments)) by {
            reveal(Pass::so_far);
        }
        while i < ops.len()
            invariant
                self.bound(*g),
                start == *old(kv),
                ops@ == plan_of(self.cfg),
                i <= ops@.len(),
                moments.len() == i + 1,
                moments.last() == (Moment { bufs, kv: *kv }),
                self.so_far(start, moments),
            decreases ops@.len() - i,
        {
            proof {
                self.lemma_ready(*g, start, moments);
            }
            if !self.step(ops[i], &mut bufs, kv) {
                proof {
                    self.lemma_finished(*g, start, moments, Err(i));
                }
                return Err(i);
            }
            proof {
                let after = Moment { bufs, kv: *kv };
                self.lemma_advanced(*g, start, moments, after);
                moments = moments.push(after);
            }
            i += 1;
        }
        let logits: Vec<K::Num> = bufs.logits;
        proof {
            self.lemma_finished(*g, start, moments, Ok(logits));
        }
        Ok(logits)
    }
}

/// Why a forward pass gave no logits.
#[derive(Clone, Copy, Debug, PartialEq, Eq, Structural)]
pub enum ForwardError {
    /// The weights do not fit the hyperparameters.
    Weights(WeightError),
    /// The arithmetic gave the wrong number of numbers for the operation at
    /// this place of the plan.
    Kernel(usize),
}

/// Whether a forward pass over the weights of a file leads from one cache to
/// another, through the given moments, and ends with `r`.
#[verifier::opaque]
pub open spec fn forwarded<K: Kernels>(
    g: GgufFile,
    p: Pass<K>,
    before: KvCache<K::Num>,
    after: KvCache<K::Num>,
    moments: Seq<Moment<K::Num>>,
    r: Result<Vec<K::Num>, usize>,
) -> bool {
    &&& weights_of(g, p.cfg) == Ok::<WeightsView, WeightError>(p.weights@)
    &&& p.ran(before, after, moments)
    &&& p.outcome(moments, r)
}

/// Whether a decode step of a model, for a token at a position, leaves the
/// cache `after` and ends with `r`.
pub open spec fn decoded<'a, K: Kernels>(
    k: &K,
    m: Model<'a, K::Num>,
    token: u32,
    pos: usize,
    after: KvCache<K::Num>,
    r: Result<Vec<K::Num>, usize>,
) -> bool {
    exists|p: Pass<K>, moments: Seq<Moment<K::Num>>| #[trigger]
        forwarded(m.gguf, p, m.kv, after, moments, r) && p.is_for(k, m.cfg, token, pos)
}

impl<'a, T: Copy> Model<'a, T> {
    /// Run one decode step for `token` at sequence position `pos`, returning
    /// logits over the vocabulary. Appends this step's keys and values to the
    /// cache.
    pub fn forward<K: Kernels<Num = T>>(&mut self, k: &K, token: u32, pos: usize) -> (r: Result<
        Vec<T>,
        ForwardError,
    >)
        requires
            old(self).wf(),
            token < old(self).cfg.vocab_size,
        ensures
            final(self).wf(),
            final(self).cfg == old(self).cfg,
            final(self).tokenizer == old(self).tokenizer,
            final(self).gguf == old(self).gguf,
            match r {
                Err(ForwardError::Weights(e)) => {
                    &&& weights_of(old(self).gguf, old(self).cfg) == Err::<
                        WeightsView,
                        WeightError,
                    >(e)
                    &&& final(self).kv == old(self).kv
                },
                Err(ForwardError::Kernel(i)) => decoded(
                    k,
                    *old(self),
                    token,
                    pos,
                    final(self).kv,
                    Err(i),
                ),
                Ok(logits) => decoded(k, *old(self), token, pos, final(self).kv, Ok(logits)),
            },
    {
        let w: Weights<'_> = match Weights::from_gguf(&self.gguf, &self.cfg) {
            Ok(w) => w,
            Err(e) => return Err(ForwardError::Weights(e)),
        };
        let pass: Pass<'_, '_, K> = Pass { kernels: k, cfg: self.cfg, weights: &w, token, pos };
        let r: Result<Vec<T>, usize> = pass.run(&self.gguf, &mut self.kv);
        assert(decoded(k, *old(self), token, pos, self.kv, r)) by {
            let moments = choose|moments: Seq<Moment<T>>| #[trigger]
                forwarded(self.gguf, pass, old(self).kv, self.kv, moments, r);
            assert(pass.is_for(k, self.cfg, token, pos));
        }
        match r {
            Ok(logits) => Ok(logits),
            Err(i) => Err(ForwardError::Kernel(i)),
        }
    }
}

} // verus!
