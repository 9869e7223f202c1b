//! Byte strings: the model of all text that the crate reads and writes.
use vstd::prelude::*;
use vstd::string::*;
use vstd::utf8::encode_utf8_decode_utf8;

verus! {

/// The views of the items of a sequence, in their order.
pub open spec fn views_of<T: View>(items: Seq<T>) -> Seq<T::V> {
    Seq::new(items.len(), |i: int| items[i]@)
}

/// `items` without the items that stand in it a second time or later.
pub open spec fn first_occurrences<A>(items: Seq<A>) -> Seq<A>
    decreases items.len(),
{
    if items.len() == 0 {
        Seq::empty()
    } else if items.drop_last().contains(items.last()) {
        first_occurrences(items.drop_last())
    } else {
        first_occurrences(items.drop_last()).push(items.last())
    }
}

/// What is left holds no item twice, and holds exactly the items that the
/// sequence holds.
pub proof fn lemma_first_occurrences<A>(items: Seq<A>)
    ensures
        first_occurrences(items).no_duplicates(),
        first_occurrences(items).len() <= items.len(),
        forall|item: A| first_occurrences(items).contains(item) <==> items.contains(item),
    decreases items.len(),
{
    if items.len() > 0 {
        let shorter = items.drop_last();
        let last = items.last();
        let kept = first_occurrences(shorter);
        let all = first_occurrences(items);
        lemma_first_occurrences(shorter);
        assert(items[items.len() - 1] == last);
        assert(items.contains(last));
        assert forall|item: A| all.contains(item) <==> items.contains(item) by {
            assert(kept.contains(item) <==> shorter.contains(item));
            if items.contains(item) {
                let k = choose|k: int| 0 <= k < items.len() && items[k] == item;
                if k < shorter.len() {
                    assert(shorter[k] == item);
                    assert(shorter.contains(item));
                }
            }
            if shorter.contains(item) {
                let k = choose|k: int| 0 <= k < shorter.len() && shorter[k] == item;
                assert(items[k] == item);
            }
            if shorter.contains(last) {
                assert(all == kept);
            } else {
                assert(all == kept.push(last));
                assert(all[kept.len() as int] == last);
                if kept.contains(item) {
                    let m = choose|m: int| 0 <= m < kept.len() && kept[m] == item;
                    assert(all[m] == item);
                }
                if all.contains(item) {
                    let m = choose|m: int| 0 <= m < all.len() && all[m] == item;
                    if m < kept.len() {
                        assert(kept[m] == item);
                    }
                }
            }
        }
        if !shorter.contains(last) {
            assert(!kept.contains(last));
        }
    }
}

/// A sequence that holds no item twice is left as it is.
pub proof fn lemma_first_occurrences_of_distinct<A>(items: Seq<A>)
    requires
        items.no_duplicates(),
    ensures
        first_occurrences(items) == items,
    decreases items.len(),
{
    if items.len() > 0 {
        let shorter = items.drop_last();
        assert(shorter.no_duplicates());
        lemma_first_occurrences_of_distinct(shorter);
        if shorter.contains(items.last()) {
            let k = choose|k: int| 0 <= k < shorter.len() && shorter[k] == items.last();
            assert(items[k] == items[items.len() - 1]);
        }
        assert(shorter.push(items.last()) =~= items);
    }
}

/// Whether two byte strings are the same.
pub fn bytes_equal(a: &[u8], b: &[u8]) -> (same: bool)
    ensures
        same == (a@ == b@),
{
    if a.len() != b.len() {
        return false;
    }
    let mut i: usize = 0;
    while i < a.len()
        invariant
            i <= a.len(),
            a.len() == b.len(),
            forall|k: int| 0 <= k < i ==> a@[k] == b@[k],
        decreases a.len() - i,
    {
        if a[i] != b[i] {
            return false;
        }
        i += 1;
    }
    assert(a@ =~= b@);
    true
}

/// Whether two texts are the same.
pub fn str_equal(a: &str, b: &str) -> (same: bool)
    ensures
        same == (a@ == b@),
{
    proof {
        encode_utf8_decode_utf8(a@);
        encode_utf8_decode_utf8(b@);
    }
    bytes_equal(a.as_bytes(), b.as_bytes())
}

/// Appends the bytes of `piece` to `text`.
pub fn push_bytes(text: &mut Vec<u8>, piece: &[u8])
    ensures
        final(text)@ == old(text)@ + piece@,
{
    let mut i: usize = 0;
    while i < piece.len()
        invariant
            i <= piece.len(),
            text@ == old(text)@ + piece@.take(i as int),
        decreases piece.len() - i,
    {
        text.push(piece[i]);
        assert(piece@.take(i + 1) =~= piece@.take(i as int).push(piece@[i as int]));
        assert(text@ =~= old(text)@ + piece@.take(i + 1));
        i += 1;
    }
    assert(piece@.take(piece.len() as int) =~= piece@);
}

/// The texts of the items in their order, with the separator between one
/// and the next.
pub open spec fn joined_in(items: Seq<Seq<u8>>, separator: Seq<u8>) -> Seq<u8>
    decreases items.len(),
{
    if items.len() == 0 {
        Seq::empty()
    } else if items.len() == 1 {
        items[0]
    } else {
        joined_in(items.drop_last(), separator) + separator + items.last()
    }
}

/// Joins a list into one text: every item in its order, and the separator
/// between neighbours only.
pub fn join_in(items: &Vec<&[u8]>, separator: &[u8]) -> (text: Vec<u8>)
    ensures
        text@ == joined_in(views_of(items@), separator@),
{
    let ghost all = views_of(items@);
    let mut text: Vec<u8> = Vec::new();
    let mut i: usize = 0;
    proof {
        assert(all.take(0) =~= Seq::<Seq<u8>>::empty());
    }
    while i < items.len()
        invariant
            i <= items.len(),
            all == views_of(items@),
            text@ == joined_in(all.take(i as int), separator@),
        decreases items.len() - i,
    {
        proof {
            assert(all.take(i + 1).drop_last() =~= all.take(i as int));
            assert(all.take(i + 1).last() == items@[i as int]@);
        }
        if i > 0 {
            push_bytes(&mut text, separator);
            push_bytes(&mut text, items[i]);
        } else {
            push_bytes(&mut text, items[i]);
            assert(text@ =~= items@[0]@);
            assert(all.take(1)[0] == items@[0]@);
        }
        i += 1;
    }
    proof {
        assert(all.take(items.len() as int) =~= all);
    }
    text
}

} // verus!
