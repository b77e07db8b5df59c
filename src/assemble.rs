//! Rebuilds the encoded text of a message from framed lines given in any order.
use vstd::prelude::*;
use crate::error::Error;
use crate::frame::{Fragment, FragmentView, parse_fragment, parse_fragment_spec, copy_range};

verus! {

/// Position of the first `\n` at or after `from`, or the end of the text.
pub open spec fn next_newline(text: Seq<u8>, from: int) -> int
    decreases text.len() - from,
{
    if from >= text.len() {
        text.len() as int
    } else if text[from] == 10u8 {
        from
    } else {
        next_newline(text, from + 1)
    }
}

/// A line without its trailing carriage return, if it has one.
pub open spec fn strip_cr(line: Seq<u8>) -> Seq<u8> {
    if line.len() > 0 && line.last() == 13u8 { line.drop_last() } else { line }
}

/// The fragments carried by the lines from `pos` on, appended to `acc`; every
/// fragment must agree with the first one on the part count.
pub open spec fn collect_spec(text: Seq<u8>, pos: int, acc: Seq<FragmentView>) -> Result<Seq<FragmentView>, Error>
    decreases text.len() + 1 - pos,
{
    if pos < 0 || pos >= text.len() {
        Ok(acc)
    } else {
        let nl = next_newline(text, pos);
        if nl < pos || nl > text.len() {
            Ok(acc)
        } else {
            match parse_fragment_spec(strip_cr(text.subrange(pos, nl))) {
                Err(e) => Err(e),
                Ok(None) => collect_spec(text, nl + 1, acc),
                Ok(Some(f)) => if acc.len() > 0 && acc[0].count != f.count {
                    Err(Error::ValueValidation)
                } else {
                    collect_spec(text, nl + 1, acc.push(f))
                },
            }
        }
    }
}

/// Position of the first fragment at or after `from` with part index `i`.
pub open spec fn find_part(frags: Seq<FragmentView>, i: nat, from: int) -> Option<int>
    decreases frags.len() - from,
{
    if from < 0 || from >= frags.len() {
        None
    } else if frags[from].index == i {
        Some(from)
    } else {
        find_part(frags, i, from + 1)
    }
}

/// Every index below `n` has a fragment.
pub open spec fn all_present(frags: Seq<FragmentView>, n: nat) -> bool {
    forall|i: nat| i < n ==> (#[trigger] find_part(frags, i, 0)) is Some
}

/// Two fragments share a part index.
pub open spec fn has_duplicate(frags: Seq<FragmentView>) -> bool {
    exists|j: int, k: int| 0 <= j < k < frags.len() && #[trigger] frags[j].index == #[trigger] frags[k].index
}

/// The texts of parts `0..k`, in index order.
pub open spec fn joined(frags: Seq<FragmentView>, k: nat) -> Seq<u8>
    decreases k,
{
    if k == 0 {
        Seq::empty()
    } else {
        let prev = joined(frags, (k - 1) as nat);
        match find_part(frags, (k - 1) as nat, 0) {
            Some(j) => prev + frags[j].text,
            None => prev,
        }
    }
}

/// The encoded text a set of fragments stands for.
pub open spec fn combine_spec(frags: Seq<FragmentView>) -> Result<Seq<u8>, Error> {
    if frags.len() == 0 {
        Err(Error::InvalidInput)
    } else if !all_present(frags, frags[0].count) {
        Err(Error::ValueValidation)
    } else if has_duplicate(frags) {
        Err(Error::InvalidInput)
    } else {
        Ok(joined(frags, frags[0].count))
    }
}

/// The encoded text that the framed lines of `text` stand for.
pub open spec fn assemble_spec(text: Seq<u8>) -> Result<Seq<u8>, Error> {
    match collect_spec(text, 0, Seq::empty()) {
        Err(e) => Err(e),
        Ok(frags) => combine_spec(frags),
    }
}

pub open spec fn views(v: Seq<Fragment>) -> Seq<FragmentView> {
    v.map_values(|f: Fragment| f@)
}

fn find_newline(text: &[u8], from: usize) -> (r: usize)
    requires
        from <= text@.len(),
    ensures
        r as int == next_newline(text@, from as int),
        from <= r <= text@.len(),
{
    let mut i = from;
    while i < text.len()
        invariant
            from <= i <= text@.len(),
            next_newline(text@, from as int) == next_newline(text@, i as int),
        decreases text@.len() - i,
    {
        if text[i] == 10u8 {
            return i;
        }
        i += 1;
    }
    i
}

/// Parses every line of `text`, keeping the fragments of framed lines.
fn collect_fragments(text: &[u8]) -> (r: Result<Vec<Fragment>, Error>)
    ensures
        match (r, collect_spec(text@, 0, Seq::empty())) {
            (Ok(v), Ok(s)) => views(v@) == s,
            (Err(e), Err(e2)) => e == e2,
            _ => false,
        },
{
    let mut frags: Vec<Fragment> = Vec::new();
    let mut pos: usize = 0;
    assert(views(frags@) =~= Seq::<FragmentView>::empty());
    while pos < text.len()
        invariant
            pos <= text@.len(),
            collect_spec(text@, pos as int, views(frags@)) == collect_spec(text@, 0, Seq::empty()),
        decreases text@.len() - pos,
    {
        let nl = find_newline(text, pos);
        let mut end = nl;
        if end > pos && text[end - 1] == 13u8 {
            end = end - 1;
        }
        let line = copy_range(text, pos, end);
        assert(line@ =~= strip_cr(text@.subrange(pos as int, nl as int)));
        match parse_fragment(&line) {
            Err(e) => {
                return Err(e);
            },
            Ok(None) => {},
            Ok(Some(f)) => {
                if frags.len() > 0 && frags[0].count != f.count {
                    return Err(Error::ValueValidation);
                }
                let ghost old_frags = frags@;
                frags.push(f);
                assert(views(frags@) =~= views(old_frags).push(f@));
            },
        }
        if nl == text.len() {
            assert(collect_spec(text@, nl + 1, views(frags@)) == Ok::<Seq<FragmentView>, Error>(views(frags@)));
            return Ok(frags);
        }
        pos = nl + 1;
    }
    Ok(frags)
}

fn find_part_exec(frags: &Vec<Fragment>, i: usize) -> (r: Option<usize>)
    ensures
        match (r, find_part(views(frags@), i as nat, 0)) {
            (Some(j), Some(k)) => j as int == k && j < frags@.len(),
            (None, None) => true,
            _ => false,
        },
{
    let mut j: usize = 0;
    while j < frags.len()
        invariant
            j <= frags@.len(),
            find_part(views(frags@), i as nat, j as int) == find_part(views(frags@), i as nat, 0),
        decreases frags@.len() - j,
    {
        if frags[j].index == i {
            return Some(j);
        }
        j += 1;
    }
    None
}

/// Joins a set of fragments into the encoded text, checking that it is complete.
pub fn combine_fragments(frags: &Vec<Fragment>) -> (r: Result<Vec<u8>, Error>)
    ensures
        match (r, combine_spec(views(frags@))) {
            (Ok(v), Ok(s)) => v@ == s,
            (Err(e), Err(e2)) => e == e2,
            _ => false,
        },
{
    let ghost fv = views(frags@);
    if frags.len() == 0 {
        return Err(Error::InvalidInput);
    }
    let n = frags[0].count;
    assert(fv.len() == frags@.len());
    assert(fv[0] == frags@[0]@);
    let mut i: usize = 0;
    while i < n
        invariant
            i <= n,
            fv.len() == frags@.len(),
            fv.len() > 0,
            n == fv[0].count,
            fv == views(frags@),
            forall|k: nat| k < i ==> (#[trigger] find_part(fv, k, 0)) is Some,
        decreases n - i,
    {
        if find_part_exec(frags, i).is_none() {
            assert(!all_present(fv, n as nat));
            return Err(Error::ValueValidation);
        }
        i += 1;
    }
    assert(all_present(fv, n as nat));
    let mut j: usize = 0;
    while j < frags.len()
        invariant
            j <= frags@.len(),
            fv == views(frags@),
            fv.len() == frags@.len(),
            n == fv[0].count,
            all_present(fv, n as nat),
            forall|a: int, b: int| 0 <= a < j && a < b < fv.len() ==> fv[a].index != fv[b].index,
        decreases frags@.len() - j,
    {
        let mut k: usize = j + 1;
        while k < frags.len()
            invariant
                j < k <= frags@.len(),
                fv == views(frags@),
                fv.len() == frags@.len(),
                n == fv[0].count,
                all_present(fv, n as nat),
                forall|b: int| j < b < k ==> fv[j as int].index != fv[b].index,
            decreases frags@.len() - k,
        {
            if frags[j].index == frags[k].index {
                assert(fv[j as int].index == fv[k as int].index);
                assert(has_duplicate(fv));
                return Err(Error::InvalidInput);
            }
            k += 1;
        }
        j += 1;
    }
    assert(!has_duplicate(fv));
    let mut out: Vec<u8> = Vec::new();
    let mut i: usize = 0;
    while i < n
        invariant
            i <= n,
            n == fv[0].count,
            fv == views(frags@),
            all_present(fv, n as nat),
            out@ == joined(fv, i as nat),
        decreases n - i,
    {
        let j = find_part_exec(frags, i);
        assert(find_part(fv, i as nat, 0) is Some);
        match j {
            Some(j) => {
                let t = &frags[j].text;
                let mut c: usize = 0;
                let ghost base = out@;
                while c < t.len()
                    invariant
                        c <= t@.len(),
                        out@ == base + t@.subrange(0, c as int),
                    decreases t@.len() - c,
                {
                    out.push(t[c]);
                    c += 1;
                    assert(out@ =~= base + t@.subrange(0, c as int));
                }
                assert(t@.subrange(0, t@.len() as int) =~= t@);
                assert(fv[j as int].text == t@);
            },
            None => {},
        }
        i += 1;
    }
    Ok(out)
}

/// The encoded text carried by the framed lines of `text`. Lines without the
/// magic are skipped; the rest must form one complete message.
pub fn assemble_text(text: &[u8]) -> (r: Result<Vec<u8>, Error>)
    ensures
        match (r, assemble_spec(text@)) {
            (Ok(v), Ok(s)) => v@ == s,
            (Err(e), Err(e2)) => e == e2,
            _ => false,
        },
{
    let frags = collect_fragments(text)?;
    combine_fragments(&frags)
}


/// With no line break between `pos` and `end`, and one (or the end) at `end`,
/// the line starting at `pos` ends at `end`.
pub proof fn lemma_next_newline_at(text: Seq<u8>, pos: int, end: int)
    requires
        0 <= pos <= end <= text.len(),
        forall|i: int| pos <= i < end ==> text[i] != 10u8,
        end == text.len() || text[end] == 10u8,
    ensures
        next_newline(text, pos) == end,
    decreases end - pos,
{
    if pos < end {
        lemma_next_newline_at(text, pos + 1, end);
    }
}

/// A framed line at `pos` adds its fragment and moves on to the next line.
pub proof fn lemma_collect_step(text: Seq<u8>, pos: int, len: int, acc: Seq<FragmentView>, f: FragmentView)
    requires
        0 <= pos,
        0 <= len,
        pos + len < text.len(),
        text[pos + len] == 10u8,
        forall|i: int| pos <= i < pos + len ==> text[i] != 10u8,
        parse_fragment_spec(strip_cr(text.subrange(pos, pos + len)))
            == Ok::<Option<FragmentView>, Error>(Some(f)),
        acc.len() == 0 || acc[0].count == f.count,
    ensures
        collect_spec(text, pos, acc) == collect_spec(text, pos + len + 1, acc.push(f)),
{
    lemma_next_newline_at(text, pos, pos + len);
}

/// The first fragment with index `i` at or after `from`, when fragment `j` has index `j`.
pub proof fn lemma_find_identity(frags: Seq<FragmentView>, i: nat, from: int)
    requires
        0 <= from <= i < frags.len(),
        forall|j: int| 0 <= j < frags.len() ==> #[trigger] frags[j].index == j,
    ensures
        find_part(frags, i, from) == Some(i as int),
    decreases i - from,
{
    if from < i {
        lemma_find_identity(frags, i, from + 1);
    }
}


/// All fragments agree with the first on the part count.
pub open spec fn same_count(frags: Seq<FragmentView>) -> bool {
    forall|j: int| 0 <= j < frags.len() ==> #[trigger] frags[j].count == frags[0].count
}

proof fn lemma_collect_same_count(text: Seq<u8>, pos: int, acc: Seq<FragmentView>)
    requires
        same_count(acc),
        collect_spec(text, pos, acc) is Ok,
    ensures
        same_count(collect_spec(text, pos, acc)->Ok_0),
    decreases text.len() + 1 - pos,
{
    if 0 <= pos < text.len() {
        let nl = next_newline(text, pos);
        if pos <= nl <= text.len() {
            match parse_fragment_spec(strip_cr(text.subrange(pos, nl))) {
                Ok(None) => {
                    lemma_collect_same_count(text, nl + 1, acc);
                },
                Ok(Some(f)) => {
                    if !(acc.len() > 0 && acc[0].count != f.count) {
                        let next = acc.push(f);
                        assert(same_count(next)) by {
                            assert forall|j: int| 0 <= j < next.len() implies #[trigger] next[j].count == next[0].count by {
                                if j < acc.len() {
                                    assert(next[j] == acc[j]);
                                }
                            }
                        }
                        lemma_collect_same_count(text, nl + 1, next);
                    }
                },
                Err(_) => {},
            }
        }
    }
}

/// Fragments with mixed part counts never make it through: every fragment set
/// that the lines of a text yield agrees on one count.
pub proof fn lemma_collected_counts_agree(text: Seq<u8>)
    requires
        collect_spec(text, 0, Seq::empty()) is Ok,
    ensures
        same_count(collect_spec(text, 0, Seq::empty())->Ok_0),
{
    lemma_collect_same_count(text, 0, Seq::empty());
}

proof fn lemma_find_none(frags: Seq<FragmentView>, i: nat, from: int)
    requires
        0 <= from,
        forall|j: int| from <= j < frags.len() ==> #[trigger] frags[j].index != i,
    ensures
        find_part(frags, i, from) is None,
    decreases frags.len() - from,
{
    if from < frags.len() {
        lemma_find_none(frags, i, from + 1);
    }
}

/// A fragment set that misses an index below its part count is incomplete.
pub proof fn lemma_missing_index_fails(frags: Seq<FragmentView>, i: nat)
    requires
        frags.len() > 0,
        i < frags[0].count,
        forall|j: int| 0 <= j < frags.len() ==> #[trigger] frags[j].index != i,
    ensures
        combine_spec(frags) == Err::<Seq<u8>, Error>(Error::ValueValidation),
{
    lemma_find_none(frags, i, 0);
}

proof fn lemma_find_found(frags: Seq<FragmentView>, i: nat, from: int)
    requires
        0 <= from,
    ensures
        find_part(frags, i, from) matches Some(j) ==> from <= j < frags.len() && frags[j].index == i,
        (exists|j: int| from <= j < frags.len() && #[trigger] frags[j].index == i) ==> find_part(frags, i, from) is Some,
    decreases frags.len() - from,
{
    if from < frags.len() {
        lemma_find_found(frags, i, from + 1);
    }
}

/// The text of the fragment with index `i`, where indices are distinct.
proof fn lemma_find_unique(frags: Seq<FragmentView>, i: nat, j: int)
    requires
        !has_duplicate(frags),
        0 <= j < frags.len(),
        frags[j].index == i,
    ensures
        find_part(frags, i, 0) == Some(j),
{
    lemma_find_found(frags, i, 0);
    let k = find_part(frags, i, 0)->Some_0;
    if k != j {
        if k < j {
            assert(frags[k].index == frags[j].index);
        } else {
            assert(frags[j].index == frags[k].index);
        }
    }
}

/// Reordering a fragment set changes nothing: two duplicate-free sets that hold
/// the same fragments and agree on the part count combine to the same text.
pub proof fn lemma_combine_order_free(a: Seq<FragmentView>, b: Seq<FragmentView>)
    requires
        a.len() > 0,
        b.len() > 0,
        same_count(a),
        same_count(b),
        !has_duplicate(a),
        !has_duplicate(b),
        forall|x: FragmentView| a.contains(x) <==> b.contains(x),
    ensures
        combine_spec(a) == combine_spec(b),
{
    assert(a.contains(a[0]));
    assert(b.contains(a[0]));
    let n = a[0].count;
    assert(b[0].count == n);
    assert forall|i: nat| i < n implies ((#[trigger] find_part(a, i, 0)) is Some <==> find_part(b, i, 0) is Some) by {
        lemma_find_found(a, i, 0);
        lemma_find_found(b, i, 0);
        if find_part(a, i, 0) is Some {
            let j = find_part(a, i, 0)->Some_0;
            assert(a.contains(a[j]));
            assert(b.contains(a[j]));
            let k = choose|k: int| 0 <= k < b.len() && b[k] == a[j];
            assert(b[k].index == i);
        }
        if find_part(b, i, 0) is Some {
            let j = find_part(b, i, 0)->Some_0;
            assert(b.contains(b[j]));
            assert(a.contains(b[j]));
            let k = choose|k: int| 0 <= k < a.len() && a[k] == b[j];
            assert(a[k].index == i);
        }
    }
    if all_present(a, n) {
        assert forall|i: nat| i < n implies (#[trigger] find_part(b, i, 0)) is Some by {
            assert(find_part(a, i, 0) is Some);
        }
        lemma_joined_same(a, b, n);
    } else {
        assert(!all_present(b, n));
    }
}

proof fn lemma_joined_same(a: Seq<FragmentView>, b: Seq<FragmentView>, k: nat)
    requires
        !has_duplicate(a),
        !has_duplicate(b),
        forall|x: FragmentView| a.contains(x) <==> b.contains(x),
        forall|i: nat| i < k ==> (#[trigger] find_part(a, i, 0)) is Some,
    ensures
        joined(a, k) == joined(b, k),
    decreases k,
{
    if k > 0 {
        lemma_joined_same(a, b, (k - 1) as nat);
        let i = (k - 1) as nat;
        lemma_find_found(a, i, 0);
        let j = find_part(a, i, 0)->Some_0;
        assert(a.contains(a[j]));
        assert(b.contains(a[j]));
        let m = choose|m: int| 0 <= m < b.len() && b[m] == a[j];
        lemma_find_unique(b, i, m);
    }
}

/// Decoding does not depend on the order of the lines: two texts whose framed
/// lines yield the same fragments, none twice, reassemble to the same result.
pub proof fn lemma_assemble_order_free(t1: Seq<u8>, t2: Seq<u8>)
    requires
        collect_spec(t1, 0, Seq::empty()) is Ok,
        collect_spec(t2, 0, Seq::empty()) is Ok,
        ({
            let a = collect_spec(t1, 0, Seq::empty())->Ok_0;
            let b = collect_spec(t2, 0, Seq::empty())->Ok_0;
            &&& a.len() > 0 && b.len() > 0
            &&& !has_duplicate(a) && !has_duplicate(b)
            &&& forall|x: FragmentView| a.contains(x) <==> b.contains(x)
        }),
    ensures
        assemble_spec(t1) == assemble_spec(t2),
{
    lemma_collected_counts_agree(t1);
    lemma_collected_counts_agree(t2);
    lemma_combine_order_free(collect_spec(t1, 0, Seq::empty())->Ok_0, collect_spec(t2, 0, Seq::empty())->Ok_0);
}

/// Lines, each ended by a newline.
pub open spec fn join_newlines(ls: Seq<Seq<u8>>) -> Seq<u8>
    decreases ls.len(),
{
    if ls.len() == 0 {
        Seq::empty()
    } else {
        join_newlines(ls.drop_last()) + ls.last() + seq![10u8]
    }
}

/// No line holds a line break.
pub open spec fn single_lines(ls: Seq<Seq<u8>>) -> bool {
    forall|k: int, i: int| 0 <= k < ls.len() && 0 <= i < ls[k].len() ==> #[trigger] ls[k][i] != 10u8
}

/// The fragments of the lines from `k` on, appended to `acc`, line by line.
pub open spec fn fold_lines(ls: Seq<Seq<u8>>, k: int, acc: Seq<FragmentView>) -> Result<Seq<FragmentView>, Error>
    decreases ls.len() - k,
{
    if k < 0 || k >= ls.len() {
        Ok(acc)
    } else {
        match parse_fragment_spec(strip_cr(ls[k])) {
            Err(e) => Err(e),
            Ok(None) => fold_lines(ls, k + 1, acc),
            Ok(Some(f)) => if acc.len() > 0 && acc[0].count != f.count {
                Err(Error::ValueValidation)
            } else {
                fold_lines(ls, k + 1, acc.push(f))
            },
        }
    }
}

proof fn lemma_join_prefix(ls: Seq<Seq<u8>>, k: int)
    requires
        0 <= k <= ls.len(),
    ensures
        join_newlines(ls.take(k)).len() <= join_newlines(ls).len(),
        join_newlines(ls).subrange(0, join_newlines(ls.take(k)).len() as int) == join_newlines(ls.take(k)),
    decreases ls.len(),
{
    if k == ls.len() {
        assert(ls.take(k) =~= ls);
        assert(join_newlines(ls).subrange(0, join_newlines(ls).len() as int) =~= join_newlines(ls));
    } else {
        lemma_join_prefix(ls.drop_last(), k);
        assert(ls.drop_last().take(k) =~= ls.take(k));
        let p = join_newlines(ls.take(k));
        let a = join_newlines(ls.drop_last());
        assert(join_newlines(ls).subrange(0, p.len() as int) =~= a.subrange(0, p.len() as int));
    }
}

/// Collecting the fragments of joined lines is the line-by-line fold.
proof fn lemma_collect_fold(ls: Seq<Seq<u8>>, k: int, acc: Seq<FragmentView>)
    requires
        0 <= k <= ls.len(),
        single_lines(ls),
    ensures
        collect_spec(join_newlines(ls), join_newlines(ls.take(k)).len() as int, acc) == fold_lines(ls, k, acc),
    decreases ls.len() - k,
{
    let t = join_newlines(ls);
    if k == ls.len() {
        assert(ls.take(k) =~= ls);
    } else {
        lemma_join_prefix(ls, k + 1);
        let pre = join_newlines(ls.take(k));
        let line = ls[k];
        assert(ls.take(k + 1).drop_last() =~= ls.take(k));
        assert(ls.take(k + 1).last() == ls[k]);
        let whole = join_newlines(ls.take(k + 1));
        assert(whole == pre + line + seq![10u8]);
        let pos = pre.len() as int;
        assert(t[pos + line.len()] == whole[pos + line.len()]);
        assert forall|i: int| pos <= i < pos + line.len() implies t[i] != 10u8 by {
            assert(t[i] == whole[i]);
            assert(whole[i] == line[i - pos]);
        }
        assert(t.subrange(pos, pos + line.len()) =~= line) by {
            assert forall|i: int| 0 <= i < line.len() implies t.subrange(pos, pos + line.len())[i] == line[i] by {
                assert(t[pos + i] == whole[pos + i]);
            }
        }
        lemma_next_newline_at(t, pos, pos + line.len());
        match parse_fragment_spec(strip_cr(line)) {
            Err(_) => {},
            Ok(None) => {
                lemma_collect_fold(ls, k + 1, acc);
            },
            Ok(Some(f)) => {
                if !(acc.len() > 0 && acc[0].count != f.count) {
                    lemma_collect_fold(ls, k + 1, acc.push(f));
                }
            },
        }
    }
}

/// Every line from `k` on parses, framed or not.
pub open spec fn all_parse(ls: Seq<Seq<u8>>, k: int) -> bool {
    forall|j: int| k <= j < ls.len() ==> (#[trigger] parse_fragment_spec(strip_cr(ls[j]))) is Ok
}

/// The part count of line `j`, when it is a framed line.
pub open spec fn count_at(ls: Seq<Seq<u8>>, j: int) -> Option<nat> {
    match parse_fragment_spec(strip_cr(ls[j])) {
        Ok(Some(f)) => Some(f.count),
        _ => None,
    }
}

/// Line `j` is framed with a part count other than `c`.
pub open spec fn count_differs(ls: Seq<Seq<u8>>, j: int, c: nat) -> bool {
    count_at(ls, j) is Some && count_at(ls, j)->Some_0 != c
}

/// Lines `j1` and `j2` are both framed, with different part counts.
pub open spec fn counts_differ(ls: Seq<Seq<u8>>, j1: int, j2: int) -> bool {
    count_at(ls, j1) is Some && count_at(ls, j2) is Some && count_at(ls, j1)->Some_0 != count_at(ls, j2)->Some_0
}

proof fn lemma_fold_mixed(ls: Seq<Seq<u8>>, k: int, acc: Seq<FragmentView>)
    requires
        0 <= k <= ls.len(),
        all_parse(ls, k),
        (acc.len() > 0 && exists|j: int| k <= j < ls.len() && #[trigger] count_differs(ls, j, acc[0].count))
            || (exists|j1: int, j2: int| k <= j1 < ls.len() && k <= j2 < ls.len() && #[trigger] counts_differ(ls, j1, j2)),
    ensures
        fold_lines(ls, k, acc) == Err::<Seq<FragmentView>, Error>(Error::ValueValidation),
    decreases ls.len() - k,
{
    assert(k < ls.len());
    assert(parse_fragment_spec(strip_cr(ls[k])) is Ok);
    match parse_fragment_spec(strip_cr(ls[k])) {
        Ok(None) => {
            assert(count_at(ls, k) is None);
            lemma_fold_mixed(ls, k + 1, acc);
        },
        Ok(Some(f)) => {
            if !(acc.len() > 0 && acc[0].count != f.count) {
                let next = acc.push(f);
                assert(next[0].count == f.count || (acc.len() > 0 && next[0] == acc[0]));
                assert(next[0].count == f.count);
                assert(count_at(ls, k) == Some(f.count));
                if acc.len() > 0 && exists|j: int| k <= j < ls.len() && #[trigger] count_differs(ls, j, acc[0].count) {
                    let j = choose|j: int| k <= j < ls.len() && #[trigger] count_differs(ls, j, acc[0].count);
                    assert(j != k);
                    assert(count_differs(ls, j, next[0].count));
                } else {
                    let (j1, j2) = choose|j1: int, j2: int| k <= j1 < ls.len() && k <= j2 < ls.len()
                        && #[trigger] counts_differ(ls, j1, j2);
                    if count_at(ls, j1) != Some(f.count) {
                        assert(j1 != k);
                        assert(count_differs(ls, j1, next[0].count));
                    } else {
                        assert(j2 != k);
                        assert(count_differs(ls, j2, next[0].count));
                    }
                }
                lemma_fold_mixed(ls, k + 1, next);
            }
        },
        Err(_) => {},
    }
}

/// Mixed part counts fail: when every line parses and two framed lines disagree
/// on the part count, reassembly fails with `ValueValidation`.
pub proof fn lemma_mixed_counts_fail(ls: Seq<Seq<u8>>, j1: int, j2: int)
    requires
        single_lines(ls),
        all_parse(ls, 0),
        0 <= j1 < ls.len(),
        0 <= j2 < ls.len(),
        counts_differ(ls, j1, j2),
    ensures
        assemble_spec(join_newlines(ls)) == Err::<Seq<u8>, Error>(Error::ValueValidation),
{
    assert(ls.take(0) =~= Seq::<Seq<u8>>::empty());
    lemma_collect_fold(ls, 0, Seq::empty());
    lemma_fold_mixed(ls, 0, Seq::empty());
}

/// A missing part fails: when the lines yield fragments that agree on a count
/// but none has index `i` below it, reassembly fails with `ValueValidation`.
pub proof fn lemma_missing_line_fails(ls: Seq<Seq<u8>>, i: nat)
    requires
        single_lines(ls),
        fold_lines(ls, 0, Seq::empty()) is Ok,
        ({
            let fs = fold_lines(ls, 0, Seq::empty())->Ok_0;
            fs.len() > 0 && i < fs[0].count && forall|j: int| 0 <= j < fs.len() ==> #[trigger] fs[j].index != i
        }),
    ensures
        assemble_spec(join_newlines(ls)) == Err::<Seq<u8>, Error>(Error::ValueValidation),
{
    assert(ls.take(0) =~= Seq::<Seq<u8>>::empty());
    lemma_collect_fold(ls, 0, Seq::empty());
    lemma_missing_index_fails(fold_lines(ls, 0, Seq::empty())->Ok_0, i);
}

/// Line `j` is a framed line carrying fragment `x`.
pub open spec fn carries(ls: Seq<Seq<u8>>, j: int, x: FragmentView) -> bool {
    parse_fragment_spec(strip_cr(ls[j])) == Ok::<Option<FragmentView>, Error>(Some(x))
}

proof fn lemma_fold_contents(ls: Seq<Seq<u8>>, k: int, acc: Seq<FragmentView>)
    requires
        0 <= k <= ls.len(),
        fold_lines(ls, k, acc) is Ok,
    ensures
        forall|x: FragmentView| (#[trigger] fold_lines(ls, k, acc)->Ok_0.contains(x)) <==>
            (acc.contains(x) || exists|j: int| k <= j < ls.len() && #[trigger] carries(ls, j, x)),
    decreases ls.len() - k,
{
    if k < ls.len() {
        match parse_fragment_spec(strip_cr(ls[k])) {
            Ok(None) => {
                lemma_fold_contents(ls, k + 1, acc);
                assert forall|x: FragmentView| (#[trigger] fold_lines(ls, k, acc)->Ok_0.contains(x)) <==>
                    (acc.contains(x) || exists|j: int| k <= j < ls.len() && #[trigger] carries(ls, j, x)) by {
                    if exists|j: int| k <= j < ls.len() && #[trigger] carries(ls, j, x) {
                        let j = choose|j: int| k <= j < ls.len() && #[trigger] carries(ls, j, x);
                        assert(j != k);
                    }
                }
            },
            Ok(Some(f)) => {
                let next = acc.push(f);
                lemma_fold_contents(ls, k + 1, next);
                assert forall|x: FragmentView| (#[trigger] fold_lines(ls, k, acc)->Ok_0.contains(x)) <==>
                    (acc.contains(x) || exists|j: int| k <= j < ls.len() && #[trigger] carries(ls, j, x)) by {
                    if next.contains(x) {
                        let m = choose|m: int| 0 <= m < next.len() && next[m] == x;
                        if m == acc.len() {
                            assert(carries(ls, k, x));
                        } else {
                            assert(acc[m] == x);
                        }
                    }
                    if acc.contains(x) {
                        let m = choose|m: int| 0 <= m < acc.len() && acc[m] == x;
                        assert(next[m] == x);
                    }
                    if exists|j: int| k <= j < ls.len() && #[trigger] carries(ls, j, x) {
                        let j = choose|j: int| k <= j < ls.len() && #[trigger] carries(ls, j, x);
                        if j == k {
                            assert(next[acc.len() as int] == x);
                        }
                    }
                }
            },
            Err(_) => {},
        }
    }
}

/// Decoding does not depend on the order of the lines: two texts made of the
/// same lines, in any order and interleaved with any unframed lines, whose
/// fragments appear once each, reassemble to the same result.
pub proof fn lemma_reordered_lines(ls1: Seq<Seq<u8>>, ls2: Seq<Seq<u8>>)
    requires
        single_lines(ls1),
        single_lines(ls2),
        forall|l: Seq<u8>| ls1.contains(l) <==> ls2.contains(l),
        fold_lines(ls1, 0, Seq::empty()) is Ok,
        fold_lines(ls2, 0, Seq::empty()) is Ok,
        ({
            let a = fold_lines(ls1, 0, Seq::empty())->Ok_0;
            let b = fold_lines(ls2, 0, Seq::empty())->Ok_0;
            a.len() > 0 && b.len() > 0 && !has_duplicate(a) && !has_duplicate(b)
        }),
    ensures
        assemble_spec(join_newlines(ls1)) == assemble_spec(join_newlines(ls2)),
{
    let e = Seq::<FragmentView>::empty();
    assert(ls1.take(0) =~= Seq::<Seq<u8>>::empty());
    assert(ls2.take(0) =~= Seq::<Seq<u8>>::empty());
    lemma_collect_fold(ls1, 0, e);
    lemma_collect_fold(ls2, 0, e);
    lemma_fold_contents(ls1, 0, e);
    lemma_fold_contents(ls2, 0, e);
    let a = fold_lines(ls1, 0, e)->Ok_0;
    let b = fold_lines(ls2, 0, e)->Ok_0;
    assert forall|x: FragmentView| a.contains(x) <==> b.contains(x) by {
        assert(!e.contains(x));
        if exists|j: int| 0 <= j < ls1.len() && #[trigger] carries(ls1, j, x) {
            let j = choose|j: int| 0 <= j < ls1.len() && #[trigger] carries(ls1, j, x);
            assert(ls1.contains(ls1[j]));
            assert(ls2.contains(ls1[j]));
            let m = choose|m: int| 0 <= m < ls2.len() && ls2[m] == ls1[j];
            assert(carries(ls2, m, x));
        }
        if exists|j: int| 0 <= j < ls2.len() && #[trigger] carries(ls2, j, x) {
            let j = choose|j: int| 0 <= j < ls2.len() && #[trigger] carries(ls2, j, x);
            assert(ls2.contains(ls2[j]));
            assert(ls1.contains(ls2[j]));
            let m = choose|m: int| 0 <= m < ls1.len() && ls1[m] == ls2[j];
            assert(carries(ls1, m, x));
        }
    }
    lemma_collected_counts_agree(join_newlines(ls1));
    lemma_collected_counts_agree(join_newlines(ls2));
    lemma_combine_order_free(a, b);
}

} // verus!
