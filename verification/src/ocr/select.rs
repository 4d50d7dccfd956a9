//! Selecting words under a rectangle and turning a selection into text.
use vstd::prelude::*;

use crate::geometry::Rect;
use crate::ocr::models::{OcrWord, WordModel};
use crate::text::{push_all, string_of};

verus! {

broadcast use vstd::seq_lib::group_to_multiset_ensures;

/// The models of a list of words.
pub open spec fn models(words: Seq<&OcrWord>) -> Seq<WordModel> {
    words.map_values(|w: &OcrWord| w@)
}

/// The models of the words, in the list's order, whose boxes intersect `rect`.
pub open spec fn intersecting(words: Seq<OcrWord>, rect: Rect) -> Seq<WordModel> {
    words.map_values(|w: OcrWord| w@).filter(|m: WordModel| m.bbox.spec_intersects(rect))
}

/// The indices, ascending, of the words whose boxes intersect `rect`.
pub open spec fn intersecting_indices(words: Seq<OcrWord>, rect: Rect) -> Seq<int> {
    Seq::new(words.len(), |i: int| i).filter(|i: int| words[i].bbox.spec_intersects(rect))
}

/// Return all words whose bounding boxes intersect `rect`, in list order.
///
/// `rect` is in image pixel coordinates.
pub fn select_words<'a>(words: &'a [OcrWord], rect: Rect) -> (out: Vec<&'a OcrWord>)
    ensures
        models(out@) == intersecting(words@, rect),
{
    let ghost pred = |m: WordModel| m.bbox.spec_intersects(rect);
    let ghost all = words@.map_values(|w: OcrWord| w@);
    let mut out: Vec<&OcrWord> = Vec::new();
    let mut i: usize = 0;
    while i < words.len()
        invariant
            0 <= i <= words@.len(),
            all == words@.map_values(|w: OcrWord| w@),
            pred == (|m: WordModel| m.bbox.spec_intersects(rect)),
            models(out@) == all.subrange(0, i as int).filter(pred),
        decreases words.len() - i,
    {
        proof {
            assert(all.subrange(0, i + 1) =~= all.subrange(0, i as int).push(all[i as int]));
            all.subrange(0, i as int).lemma_filter_push(all[i as int], pred);
        }
        if words[i].bbox.intersects(&rect) {
            out.push(&words[i]);
            proof {
                assert(models(out@) =~= models(out@.drop_last()).push(words@[i as int]@));
            }
        }
        i = i + 1;
    }
    assert(all.subrange(0, words@.len() as int) =~= all);
    out
}

/// Return the indices (ascending) of the words whose bounding boxes intersect
/// `rect`.
pub fn select_word_indices(words: &[OcrWord], rect: Rect) -> (out: Vec<usize>)
    ensures
        out@.map_values(|i: usize| i as int) == intersecting_indices(words@, rect),
{
    let ghost pred = |i: int| words@[i].bbox.spec_intersects(rect);
    let ghost all = Seq::new(words@.len(), |i: int| i);
    let mut out: Vec<usize> = Vec::new();
    let mut i: usize = 0;
    while i < words.len()
        invariant
            0 <= i <= words@.len(),
            all == Seq::new(words@.len(), |i: int| i),
            pred == (|i: int| words@[i].bbox.spec_intersects(rect)),
            out@.map_values(|i: usize| i as int) == all.subrange(0, i as int).filter(pred),
        decreases words.len() - i,
    {
        proof {
            assert(all.subrange(0, i + 1) =~= all.subrange(0, i as int).push(i as int));
            all.subrange(0, i as int).lemma_filter_push(i as int, pred);
        }
        if words[i].bbox.intersects(&rect) {
            let ghost before = out@;
            out.push(i);
            proof {
                assert(out@.map_values(|i: usize| i as int) =~= before.map_values(
                    |i: usize| i as int,
                ).push(i as int));
            }
        }
        i = i + 1;
    }
    assert(all.subrange(0, words@.len() as int) =~= all);
    out
}

/// The words at `indices` (in that order), skipping indices out of range.
pub open spec fn words_at(words: Seq<OcrWord>, indices: Seq<usize>) -> Seq<WordModel> {
    indices.filter(|i: usize| (i as int) < words.len()).map_values(|i: usize| words[i as int]@)
}

/// The text of the words at `indices` of `words` (indices out of range are
/// skipped), in OCR output order.
pub fn selected_text_at(words: &[OcrWord], indices: &[usize]) -> (r: String)
    ensures
        r@ == selection_text(words_at(words@, indices@)),
{
    let ghost pred = |i: usize| (i as int) < words@.len();
    let mut picked: Vec<&OcrWord> = Vec::new();
    let mut k: usize = 0;
    while k < indices.len()
        invariant
            0 <= k <= indices@.len(),
            pred == (|i: usize| (i as int) < words@.len()),
            models(picked@) == indices@.subrange(0, k as int).filter(pred).map_values(
                |i: usize| words@[i as int]@,
            ),
        decreases indices.len() - k,
    {
        proof {
            assert(indices@.subrange(0, k + 1) =~= indices@.subrange(0, k as int).push(
                indices@[k as int],
            ));
            indices@.subrange(0, k as int).lemma_filter_push(indices@[k as int], pred);
        }
        let idx = indices[k];
        if idx < words.len() {
            let ghost before = models(picked@);
            picked.push(&words[idx]);
            proof {
                assert(models(picked@) =~= before.push(words@[idx as int]@));
            }
        }
        k = k + 1;
    }
    assert(indices@.subrange(0, indices@.len() as int) =~= indices@);
    selected_text(picked)
}

/// `w` inserted into `s` behind every element whose `order` is not larger:
/// one step of a stable insertion sort.
pub open spec fn insert_by_order(s: Seq<WordModel>, w: WordModel) -> Seq<WordModel>
    decreases s.len(),
{
    if s.len() == 0 || s.last().order <= w.order {
        s.push(w)
    } else {
        insert_by_order(s.drop_last(), w).push(s.last())
    }
}

/// `s` stably sorted by `order`: what `sort_by_key(|w| w.order)` produces.
pub open spec fn sort_by_order(s: Seq<WordModel>) -> Seq<WordModel>
    decreases s.len(),
{
    if s.len() == 0 {
        s
    } else {
        insert_by_order(sort_by_order(s.drop_last()), s.last())
    }
}

/// Texts joined with single spaces: what `join(" ")` produces.
pub open spec fn join_with_spaces(texts: Seq<Seq<char>>) -> Seq<char>
    decreases texts.len(),
{
    if texts.len() == 0 {
        Seq::empty()
    } else if texts.len() == 1 {
        texts[0]
    } else {
        join_with_spaces(texts.drop_last()) + seq![' '] + texts.last()
    }
}

/// The text of a selection: the words' texts in OCR output order, joined with
/// single spaces.
pub open spec fn selection_text(words: Seq<WordModel>) -> Seq<char> {
    join_with_spaces(sort_by_order(words).map_values(|m: WordModel| m.text))
}

pub open spec fn sorted_by_order(s: Seq<WordModel>) -> bool {
    forall|i: int, j: int| 0 <= i < j < s.len() ==> #[trigger] s[i].order <= #[trigger] s[j].order
}

/// Inserting at position `j` found by scanning from the end is the
/// specification's insertion step.
proof fn lemma_insert_at(s: Seq<WordModel>, w: WordModel, j: int)
    requires
        0 <= j <= s.len(),
        forall|k: int| j <= k < s.len() ==> #[trigger] s[k].order > w.order,
        j == 0 || s[j - 1].order <= w.order,
    ensures
        insert_by_order(s, w) == s.insert(j, w),
    decreases s.len(),
{
    if s.len() == 0 {
        assert(s.insert(j, w) =~= s.push(w));
    } else if j == s.len() {
        assert(s.insert(j, w) =~= s.push(w));
    } else {
        lemma_insert_at(s.drop_last(), w, j);
        assert(s.insert(j, w) =~= s.drop_last().insert(j, w).push(s.last()));
    }
}

/// Stable insertion sort of selected words by `order`.
fn sort_words_by_order<'a>(words: Vec<&'a OcrWord>) -> (out: Vec<&'a OcrWord>)
    ensures
        models(out@) == sort_by_order(models(words@)),
{
    let mut out: Vec<&OcrWord> = Vec::new();
    let mut i: usize = 0;
    while i < words.len()
        invariant
            0 <= i <= words@.len(),
            models(out@) == sort_by_order(models(words@.subrange(0, i as int))),
        decreases words.len() - i,
    {
        let w = words[i];
        let mut j: usize = out.len();
        while j > 0 && out[j - 1].order > w.order
            invariant
                0 <= j <= out@.len(),
                forall|k: int| j <= k < out@.len() ==> #[trigger] out@[k].order > w.order,
            decreases j,
        {
            j = j - 1;
        }
        let ghost before = models(out@);
        proof {
            assert forall|k: int| j <= k < before.len() implies #[trigger] before[k].order
                > w@.order by {
                assert(before[k] == out@[k]@);
            }
            if j > 0 {
                assert(before[j - 1] == out@[j - 1]@);
            }
            lemma_insert_at(before, w@, j as int);
        }
        out.insert(j, w);
        proof {
            assert(models(out@) =~= before.insert(j as int, w@));
            let prefix = models(words@.subrange(0, i + 1));
            assert(prefix.drop_last() =~= models(words@.subrange(0, i as int)));
            assert(prefix.last() == w@);
        }
        i = i + 1;
    }
    assert(words@.subrange(0, words@.len() as int) =~= words@);
    out
}

/// Join selected words into a single string, in OCR output order (`order`).
pub fn selected_text(words: Vec<&OcrWord>) -> (r: String)
    ensures
        r@ == selection_text(models(words@)),
{
    let sorted = sort_words_by_order(words);
    let ghost texts = models(sorted@).map_values(|m: WordModel| m.text);
    let mut buf: Vec<char> = Vec::new();
    let mut i: usize = 0;
    while i < sorted.len()
        invariant
            0 <= i <= sorted@.len(),
            texts == models(sorted@).map_values(|m: WordModel| m.text),
            buf@ == join_with_spaces(texts.subrange(0, i as int)),
        decreases sorted.len() - i,
    {
        let t = crate::text::chars_of(sorted[i].text.as_str());
        proof {
            let sub = texts.subrange(0, i + 1);
            assert(sub.drop_last() =~= texts.subrange(0, i as int));
            assert(sub.last() == sorted@[i as int].text@);
        }
        if i > 0 {
            buf.push(' ');
        }
        push_all(&mut buf, t.as_slice());
        proof {
            if i == 0 {
                assert(texts.subrange(0, 1) =~= seq![texts[0]]);
                assert(buf@ =~= texts[0]);
            } else {
                let sub = texts.subrange(0, i + 1);
                assert(buf@ =~= join_with_spaces(sub.drop_last()) + seq![' '] + sub.last());
            }
        }
        i = i + 1;
    }
    assert(texts.subrange(0, sorted@.len() as int) =~= texts);
    string_of(buf.as_slice())
}

proof fn lemma_insert_sorted(s: Seq<WordModel>, w: WordModel)
    requires
        sorted_by_order(s),
    ensures
        sorted_by_order(insert_by_order(s, w)),
        insert_by_order(s, w).to_multiset() == s.to_multiset().insert(w),
    decreases s.len(),
{
    if s.len() == 0 || s.last().order <= w.order {
    } else {
        let t = s.drop_last();
        assert(sorted_by_order(t));
        lemma_insert_sorted(t, w);
        let r = insert_by_order(t, w);
        assert(s =~= t.push(s.last()));
        assert(r.to_multiset() == t.to_multiset().insert(w));
        assert forall|x: WordModel| r.contains(x) implies x.order <= s.last().order by {
            assert(r.to_multiset().count(x) > 0);
            if x == w {
            } else {
                assert(t.to_multiset().count(x) > 0);
                assert(t.contains(x));
                let k = choose|k: int| 0 <= k < t.len() && t[k] == x;
                assert(s[k] == x);
            }
        }
        let rr = r.push(s.last());
        assert forall|i: int, j: int| 0 <= i < j < rr.len() implies #[trigger] rr[i].order
            <= #[trigger] rr[j].order by {
            if j == rr.len() - 1 {
                assert(r.contains(rr[i]));
            }
        }
        assert(rr.to_multiset() == r.to_multiset().insert(s.last()));
        assert(s.to_multiset() == t.to_multiset().insert(s.last()));
        assert(rr.to_multiset() =~= s.to_multiset().insert(w));
    }
}

/// The words of a selection come out ordered by their OCR output position,
/// and none is lost or duplicated: the result is a sorted permutation.
pub proof fn selection_order_is_sorted_permutation(words: Seq<WordModel>)
    ensures
        sorted_by_order(sort_by_order(words)),
        sort_by_order(words).to_multiset() == words.to_multiset(),
    decreases words.len(),
{
    if words.len() > 0 {
        selection_order_is_sorted_permutation(words.drop_last());
        lemma_insert_sorted(sort_by_order(words.drop_last()), words.last());
        assert(words =~= words.drop_last().push(words.last()));
    }
}

/// Words at the same OCR position are the same word.
pub open spec fn order_identifies(words: Seq<WordModel>) -> bool {
    forall|i: int, j: int|
        0 <= i < words.len() && 0 <= j < words.len() && #[trigger] words[i].order
            == #[trigger] words[j].order ==> words[i] == words[j]
}

/// Two sorted listings of the same words, where a position names one word,
/// are the same listing.
proof fn lemma_sorted_unique(a: Seq<WordModel>, b: Seq<WordModel>)
    requires
        sorted_by_order(a),
        sorted_by_order(b),
        a.to_multiset() == b.to_multiset(),
        forall|x: WordModel, y: WordModel|
            a.contains(x) && a.contains(y) && x.order == y.order ==> x == y,
    ensures
        a == b,
    decreases a.len(),
{
    assert(a.len() == a.to_multiset().len());
    assert(b.len() == b.to_multiset().len());
    if a.len() == 0 {
        assert(a =~= b);
    } else {
        let x = a.last();
        let y = b.last();
        assert(b.contains(y));
        assert(b.to_multiset().count(y) > 0);
        assert(a.contains(y));
        assert(a.contains(x));
        assert(a.to_multiset().count(x) > 0);
        assert(b.contains(x));
        let i = choose|i: int| 0 <= i < a.len() && a[i] == y;
        let j = choose|j: int| 0 <= j < b.len() && b[j] == x;
        if i < a.len() - 1 {
            assert(a[i].order <= a[a.len() - 1].order);
        }
        if j < b.len() - 1 {
            assert(b[j].order <= b[b.len() - 1].order);
        }
        assert(x == y);
        let a2 = a.drop_last();
        let b2 = b.drop_last();
        assert(a =~= a2.push(x));
        assert(b =~= b2.push(x));
        assert(a.to_multiset() == a2.to_multiset().insert(x));
        assert(b.to_multiset() == b2.to_multiset().insert(x));
        assert forall|v: WordModel| a2.to_multiset().count(v) == b2.to_multiset().count(v) by {
            broadcast use vstd::multiset::group_multiset_axioms;

            let one = vstd::multiset::Multiset::<WordModel>::singleton(x);
            assert(a.to_multiset().count(v) == a2.to_multiset().count(v) + one.count(v));
            assert(b.to_multiset().count(v) == b2.to_multiset().count(v) + one.count(v));
        }
        assert(a2.to_multiset() =~= b2.to_multiset());
        assert forall|u: WordModel, w: WordModel|
            a2.contains(u) && a2.contains(w) && u.order == w.order implies u == w by {
            let k = choose|k: int| 0 <= k < a2.len() && a2[k] == u;
            let l = choose|l: int| 0 <= l < a2.len() && a2[l] == w;
            assert(a[k] == u);
            assert(a[l] == w);
            assert(a.contains(u));
            assert(a.contains(w));
        }
        lemma_sorted_unique(a2, b2);
    }
}

/// The text of a selection does not depend on the order in which its words
/// were listed: listings of the same words give the same text, as long as no
/// two different words claim the same OCR position.
pub proof fn selection_text_ignores_listing_order(a: Seq<WordModel>, b: Seq<WordModel>)
    requires
        a.to_multiset() == b.to_multiset(),
        order_identifies(a),
    ensures
        selection_text(a) == selection_text(b),
{
    selection_order_is_sorted_permutation(a);
    selection_order_is_sorted_permutation(b);
    let sa = sort_by_order(a);
    let sb = sort_by_order(b);
    assert forall|x: WordModel, y: WordModel|
        sa.contains(x) && sa.contains(y) && x.order == y.order implies x == y by {
        assert(sa.to_multiset().count(x) > 0);
        assert(sa.to_multiset().count(y) > 0);
        assert(a.contains(x));
        assert(a.contains(y));
        let i = choose|i: int| 0 <= i < a.len() && a[i] == x;
        let j = choose|j: int| 0 <= j < a.len() && a[j] == y;
        assert(a[i].order == a[j].order);
    }
    lemma_sorted_unique(sa, sb);
}

/// Total length of a list of texts.
pub open spec fn total_len(texts: Seq<Seq<char>>) -> int
    decreases texts.len(),
{
    if texts.len() == 0 {
        0
    } else {
        total_len(texts.drop_last()) + texts.last().len()
    }
}

/// Joining puts exactly one space between neighbours: appending a text to a
/// nonempty list appends a space and that text.
pub proof fn join_appends_space_then_text(texts: Seq<Seq<char>>, t: Seq<char>)
    requires
        texts.len() > 0,
    ensures
        join_with_spaces(texts.push(t)) == join_with_spaces(texts) + seq![' '] + t,
{
    assert(texts.push(t).drop_last() =~= texts);
}

/// The joined text is the texts' characters plus one space between each
/// pair of neighbours: for `n >= 1` texts its length is their total length
/// plus `n - 1`, and each text stands at its place, after one space.
#[verifier::spinoff_prover]
#[verifier::rlimit(40)]
pub proof fn join_layout(texts: Seq<Seq<char>>)
    requires
        texts.len() > 0,
    ensures
        join_with_spaces(texts).len() == total_len(texts) + texts.len() - 1,
        forall|i: int|
            0 <= i < texts.len() ==> join_with_spaces(texts).subrange(
                total_len(texts.take(i)) + i,
                total_len(texts.take(i)) + i + texts[i].len(),
            ) == #[trigger] texts[i],
        forall|i: int|
            0 < i < texts.len() ==> join_with_spaces(texts)[total_len(#[trigger] texts.take(i)) + i
                - 1] == ' ',
{
    lemma_join_len(texts);
    assert forall|i: int| 0 <= i < texts.len() implies join_with_spaces(texts).subrange(
        total_len(texts.take(i)) + i,
        total_len(texts.take(i)) + i + texts[i].len(),
    ) == #[trigger] texts[i] by {
        lemma_join_place(texts, i);
    }
    assert forall|i: int|
        0 < i < texts.len() implies join_with_spaces(texts)[total_len(#[trigger] texts.take(i)) + i
        - 1] == ' ' by {
        lemma_join_place(texts, i);
    }
}

proof fn lemma_join_len(texts: Seq<Seq<char>>)
    requires
        texts.len() > 0,
    ensures
        join_with_spaces(texts).len() == total_len(texts) + texts.len() - 1,
    decreases texts.len(),
{
    if texts.len() == 1 {
        assert(texts.drop_last() =~= Seq::<Seq<char>>::empty());
        assert(total_len(texts.drop_last()) == 0);
        assert(join_with_spaces(texts) == texts[0]);
    } else {
        let init = texts.drop_last();
        lemma_join_len(init);
        assert(join_with_spaces(texts) == join_with_spaces(init) + seq![' '] + texts.last());
        assert(total_len(texts) == total_len(init) + texts.last().len());
    }
}

proof fn lemma_join_place(texts: Seq<Seq<char>>, i: int)
    requires
        0 <= i < texts.len(),
    ensures
        join_with_spaces(texts).subrange(
            total_len(texts.take(i)) + i,
            total_len(texts.take(i)) + i + texts[i].len(),
        ) == texts[i],
        i > 0 ==> join_with_spaces(texts)[total_len(texts.take(i)) + i - 1] == ' ',
    decreases texts.len(),
{
    let j = join_with_spaces(texts);
    if texts.len() == 1 {
        assert(texts.take(0) =~= Seq::<Seq<char>>::empty());
        assert(j.subrange(0, texts[0].len() as int) =~= texts[0]);
    } else {
        let init = texts.drop_last();
        let t = texts.last();
        let ji = join_with_spaces(init);
        lemma_join_len(init);
        assert(j == ji + seq![' '] + t);
        if i < texts.len() - 1 {
            lemma_join_place(init, i);
            assert(texts.take(i) =~= init.take(i));
            assert(texts[i] == init[i]);
            lemma_total_len_prefix(init, i);
            let a = total_len(init.take(i)) + i;
            lemma_total_len_nonneg(init.take(i));
            assert(a + init[i].len() <= ji.len());
            assert(j.subrange(a, a + texts[i].len()) =~= ji.subrange(a, a + init[i].len()));
            if i > 0 {
                assert(j[a - 1] == ji[a - 1]);
            }
        } else {
            assert(texts.take(i) =~= init);
            assert(j.subrange(ji.len() as int + 1, ji.len() as int + 1 + t.len()) =~= t);
        }
    }
}

/// The texts before place `i` add up to at most the whole.
proof fn lemma_total_len_prefix(texts: Seq<Seq<char>>, i: int)
    requires
        0 <= i < texts.len(),
    ensures
        total_len(texts.take(i)) + texts[i].len() <= total_len(texts),
    decreases texts.len(),
{
    lemma_total_len_nonneg(texts.take(i));
    if i < texts.len() - 1 {
        let init = texts.drop_last();
        assert(texts.take(i) =~= init.take(i));
        lemma_total_len_prefix(init, i);
    } else {
        assert(texts.take(i) =~= texts.drop_last());
    }
}

proof fn lemma_total_len_nonneg(texts: Seq<Seq<char>>)
    ensures
        total_len(texts) >= 0,
    decreases texts.len(),
{
    if texts.len() > 0 {
        lemma_total_len_nonneg(texts.drop_last());
    }
}

} // verus!
