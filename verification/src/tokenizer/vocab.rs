//! Texts and their numbers: the vocabulary of a tokenizer, and its merge rules.

use vstd::hash_map::StringHashMap;
use vstd::prelude::*;

use crate::gguf::format::texts;

verus! {

/// The place of `piece` in a list of texts; of several equal ones, the last.
pub open spec fn place_of(list: Seq<Seq<char>>, piece: Seq<char>) -> Option<int>
    decreases list.len(),
{
    if list.len() == 0 {
        None
    } else if list.last() == piece {
        Some(list.len() - 1)
    } else {
        place_of(list.drop_last(), piece)
    }
}

/// A place as the 32-bit number that stands for it.
pub open spec fn number(i: int) -> u32 {
    (i % 0x1_0000_0000) as u32
}

/// The number of `piece` in a list of texts.
pub open spec fn number_of(list: Seq<Seq<char>>, piece: Seq<char>) -> Option<u32> {
    match place_of(list, piece) {
        Some(i) => Some(number(i)),
        None => None,
    }
}

/// What a place says: the text stands there, and nowhere behind it. There is
/// one for every text of the list.
pub proof fn lemma_place(list: Seq<Seq<char>>, piece: Seq<char>)
    ensures
        match place_of(list, piece) {
            Some(i) => 0 <= i < list.len() && list[i] == piece && forall|j: int|
                i < j < list.len() ==> #[trigger] list[j] != piece,
            None => forall|j: int| 0 <= j < list.len() ==> #[trigger] list[j] != piece,
        },
    decreases list.len(),
{
    if list.len() > 0 && list.last() != piece {
        let init = list.drop_last();
        lemma_place(init, piece);
        assert forall|j: int| 0 <= j < list.len() - 1 implies list[j] == #[trigger] init[j] by {}
        match place_of(init, piece) {
            Some(i) => {
                assert forall|j: int| i < j < list.len() implies #[trigger] list[j] != piece by {
                    if j < list.len() - 1 {
                        assert(init[j] != piece);
                    }
                }
            },
            None => {
                assert forall|j: int| 0 <= j < list.len() implies #[trigger] list[j] != piece by {
                    if j < list.len() - 1 {
                        assert(init[j] != piece);
                    }
                }
            },
        }
    }
}

/// A copy of a list of texts.
pub(crate) fn copied(list: &[String]) -> (v: Vec<String>)
    ensures
        texts(v@) == texts(list@),
{
    let mut v: Vec<String> = Vec::with_capacity(list.len());
    let mut i: usize = 0;
    while i < list.len()
        invariant
            i <= list@.len(),
            v@ == list@.take(i as int),
        decreases list@.len() - i,
    {
        v.push(list[i].clone());
        assert(list@.take(i + 1) =~= list@.take(i as int).push(list@[i as int]));
        i += 1;
    }
    assert(list@.take(i as int) =~= list@);
    v
}

/// Whether a map holds the numbers of a list of texts.
pub open spec fn numbers(m: Map<Seq<char>, u32>, list: Seq<Seq<char>>) -> bool {
    forall|k: Seq<char>| #[trigger]
        number_of(list, k) == (if m.contains_key(k) {
            Some(m[k])
        } else {
            None
        })
}

/// The numbers of a list of texts, as a map.
pub(crate) fn numbering(list: &[String]) -> (m: StringHashMap<u32>)
    ensures
        numbers(m@, texts(list@)),
{
    let mut m: StringHashMap<u32> = StringHashMap::with_capacity(list.len());
    let mut i: usize = 0;
    assert(texts(list@.take(0)) =~= seq![]);
    while i < list.len()
        invariant
            i <= list@.len(),
            numbers(m@, texts(list@.take(i as int))),
        decreases list@.len() - i,
    {
        let n: u32 = (i as u64 % 0x1_0000_0000) as u32;
        let ghost before = m@;
        m.insert(list[i].clone(), n);
        proof {
            let (old_list, new_list) = (
                texts(list@.take(i as int)),
                texts(list@.take(i as int + 1)),
            );
            assert(new_list.drop_last() =~= old_list);
            assert(new_list.last() == list@[i as int]@);
            assert forall|k: Seq<char>| #[trigger]
                number_of(new_list, k) == (if m@.contains_key(k) {
                    Some(m@[k])
                } else {
                    None
                }) by {
                assert(number_of(old_list, k) == (if before.contains_key(k) {
                    Some(before[k])
                } else {
                    None
                }));
            }
        }
        i += 1;
    }
    assert(list@.take(list@.len() as int) =~= list@);
    m
}

} // verus!
