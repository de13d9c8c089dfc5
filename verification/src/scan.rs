//! Scanning sequence records for motif matches.
//!
//! A pattern is matched with `N` as a single-symbol wildcard. One scan
//! pass walks the text left to right and reports leftmost
//! non-overlapping matches: a match consumes its window, and the search
//! resumes immediately past it.

use vstd::prelude::*;
use crate::motif::rev_comp;
use crate::motif::CompiledMotif;

verus! {

/// Whether one pattern symbol accepts one text symbol: `N` accepts any
/// symbol, every other pattern symbol only itself.
pub open spec fn symbol_matches(p: char, c: char) -> bool {
    p == 'N' || p == c
}

/// Whether the pattern matches the window of the text starting at `i`.
pub open spec fn window_matches(text: Seq<char>, pat: Seq<char>, i: int) -> bool {
    &&& 0 <= i
    &&& i + pat.len() <= text.len()
    &&& forall|j: int| 0 <= j < pat.len() ==> symbol_matches(pat[j], text[i + j])
}

/// How far a scan advances past a match: a full pattern width, or one
/// position for an empty pattern.
pub open spec fn pat_step(pat: Seq<char>) -> int {
    if pat.len() == 0 {
        1
    } else {
        pat.len() as int
    }
}

/// The start positions of the leftmost non-overlapping matches of the
/// pattern at or after position `i`, in increasing order. A match at a
/// position consumes its window; the next search resumes just past it.
pub open spec fn scan_starts_from(text: Seq<char>, pat: Seq<char>, i: int) -> Seq<int>
    decreases text.len() + 1 - i,
    when 0 <= i
{
    if i + pat.len() > text.len() {
        Seq::empty()
    } else if window_matches(text, pat, i) {
        seq![i] + scan_starts_from(text, pat, i + pat_step(pat))
    } else {
        scan_starts_from(text, pat, i + 1)
    }
}

/// Whether the pattern matches the window of the text starting at `i`.
fn window_match_at(text: &str, pat: &str, i: usize) -> (r: bool)
    requires
        i + pat@.len() <= text@.len(),
        text@.len() <= usize::MAX,
    ensures
        r == window_matches(text@, pat@, i as int),
{
    let m = pat.unicode_len();
    let mut j: usize = 0;
    while j < m
        invariant
            m == pat@.len(),
            i + m <= text@.len() <= usize::MAX,
            j <= m,
            forall|k: int| 0 <= k < j ==> symbol_matches(pat@[k], text@[i + k]),
        decreases m - j,
    {
        let p = pat.get_char(j);
        if p != 'N' {
            let c = text.get_char(i + j);
            if p != c {
                assert(!symbol_matches(pat@[j as int], text@[i + j]));
                return false;
            }
        }
        j = j + 1;
    }
    true
}

/// The start positions of the leftmost non-overlapping matches of the
/// pattern over the whole text, in scan order.
pub fn scan_starts(text: &str, pat: &str) -> (r: Vec<usize>)
    ensures
        r@.map_values(|x: usize| x as int) == scan_starts_from(text@, pat@, 0),
{
    let n = text.unicode_len();
    let m = pat.unicode_len();
    let mut r: Vec<usize> = Vec::new();
    if m > n {
        proof {
            assert(r@.map_values(|x: usize| x as int) =~= scan_starts_from(text@, pat@, 0));
        }
        return r;
    }
    let mut i: usize = 0;
    while i <= n - m
        invariant
            n == text@.len(),
            m == pat@.len(),
            m <= n,
            i <= n,
            scan_starts_from(text@, pat@, 0) == r@.map_values(|x: usize| x as int)
                + scan_starts_from(text@, pat@, i as int),
        decreases n - i,
    {
        let ghost pre = r@;
        if window_match_at(text, pat, i) {
            r.push(i);
            proof {
                assert(r@.map_values(|x: usize| x as int) =~= pre.map_values(
                    |x: usize| x as int,
                ).push(i as int));
                assert(pre.map_values(|x: usize| x as int) + scan_starts_from(
                    text@,
                    pat@,
                    i as int,
                ) =~= r@.map_values(|x: usize| x as int) + scan_starts_from(
                    text@,
                    pat@,
                    i as int + pat_step(pat@),
                ));
            }
            if m == 0 {
                if i == n {
                    proof {
                        assert(scan_starts_from(text@, pat@, i as int + pat_step(pat@))
                            =~= Seq::<int>::empty());
                        assert(scan_starts_from(text@, pat@, 0) =~= r@.map_values(
                            |x: usize| x as int,
                        ));
                    }
                    return r;
                }
                i = i + 1;
            } else {
                i = i + m;
            }
        } else {
            i = i + 1;
        }
    }
    proof {
        assert(scan_starts_from(text@, pat@, i as int) =~= Seq::<int>::empty());
        assert(scan_starts_from(text@, pat@, 0) =~= r@.map_values(|x: usize| x as int));
    }
    r
}

/// Every reported start is a genuine window match, at or after the
/// position the scan began from.
pub proof fn lemma_scan_starts_sound(text: Seq<char>, pat: Seq<char>, i: int)
    requires
        0 <= i,
    ensures
        forall|k: int|
            0 <= k < scan_starts_from(text, pat, i).len() ==> i <= #[trigger] scan_starts_from(
                text,
                pat,
                i,
            )[k] && window_matches(text, pat, scan_starts_from(text, pat, i)[k]),
    decreases text.len() + 1 - i,
{
    let s = scan_starts_from(text, pat, i);
    if i + pat.len() > text.len() {
    } else if window_matches(text, pat, i) {
        let rest = scan_starts_from(text, pat, i + pat_step(pat));
        lemma_scan_starts_sound(text, pat, i + pat_step(pat));
        assert forall|k: int| 0 <= k < s.len() implies i <= s[k] && window_matches(
            text,
            pat,
            s[k],
        ) by {
            if k > 0 {
                assert(s[k] == rest[k - 1]);
            }
        }
    } else {
        lemma_scan_starts_sound(text, pat, i + 1);
        assert forall|k: int| 0 <= k < s.len() implies i <= s[k] && window_matches(
            text,
            pat,
            s[k],
        ) by {
            assert(s[k] == scan_starts_from(text, pat, i + 1)[k]);
        }
    }
}

/// Law: one scan pass never reports overlapping matches: each start
/// lies at least a full pattern width past the one before it.
pub proof fn lemma_scan_non_overlapping(text: Seq<char>, pat: Seq<char>, i: int)
    requires
        0 <= i,
    ensures
        forall|k: int|
            0 <= k < scan_starts_from(text, pat, i).len() - 1 ==> #[trigger] scan_starts_from(
                text,
                pat,
                i,
            )[k] + pat_step(pat) <= scan_starts_from(text, pat, i)[k + 1],
    decreases text.len() + 1 - i,
{
    let s = scan_starts_from(text, pat, i);
    if i + pat.len() > text.len() {
    } else if window_matches(text, pat, i) {
        let rest = scan_starts_from(text, pat, i + pat_step(pat));
        lemma_scan_starts_sound(text, pat, i + pat_step(pat));
        lemma_scan_non_overlapping(text, pat, i + pat_step(pat));
        assert forall|k: int| 0 <= k < s.len() - 1 implies #[trigger] s[k] + pat_step(pat) <= s[k
            + 1] by {
            if k == 0 {
                assert(s[1] == rest[0]);
            } else {
                assert(s[k] == rest[k - 1]);
                assert(s[k + 1] == rest[k]);
            }
        }
    } else {
        lemma_scan_non_overlapping(text, pat, i + 1);
        assert forall|k: int| 0 <= k < s.len() - 1 implies #[trigger] s[k] + pat_step(pat) <= s[k
            + 1] by {
            assert(s[k] == scan_starts_from(text, pat, i + 1)[k]);
            assert(s[k + 1] == scan_starts_from(text, pat, i + 1)[k + 1]);
        }
    }
}

/// Law: the scan misses nothing: every position at or after the start
/// of the scan where the pattern matches lies inside the span consumed
/// by some reported match. In particular the leftmost match is always
/// reported, and a position is skipped only because an earlier
/// reported match consumed it.
pub proof fn lemma_scan_complete(text: Seq<char>, pat: Seq<char>, i: int, p: int)
    requires
        0 <= i <= p,
        window_matches(text, pat, p),
    ensures
        exists|k: int|
            0 <= k < scan_starts_from(text, pat, i).len() && #[trigger] scan_starts_from(
                text,
                pat,
                i,
            )[k] <= p < scan_starts_from(text, pat, i)[k] + pat_step(pat),
    decreases text.len() + 1 - i,
{
    let s = scan_starts_from(text, pat, i);
    if i + pat.len() > text.len() {
        assert(p + pat.len() <= text.len());
        assert(false);
    } else if window_matches(text, pat, i) {
        let rest = scan_starts_from(text, pat, i + pat_step(pat));
        if p < i + pat_step(pat) {
            assert(s[0] == i);
            assert(s[0] <= p < s[0] + pat_step(pat));
        } else {
            lemma_scan_complete(text, pat, i + pat_step(pat), p);
            let k = choose|k: int|
                0 <= k < rest.len() && #[trigger] rest[k] <= p < rest[k] + pat_step(pat);
            assert(s[k + 1] == rest[k]);
            assert(s[k + 1] <= p < s[k + 1] + pat_step(pat));
        }
    } else {
        assert(p != i);
        lemma_scan_complete(text, pat, i + 1, p);
        let k = choose|k: int|
            0 <= k < scan_starts_from(text, pat, i + 1).len() && #[trigger] scan_starts_from(
                text,
                pat,
                i + 1,
            )[k] <= p < scan_starts_from(text, pat, i + 1)[k] + pat_step(pat);
        assert(s[k] <= p < s[k] + pat_step(pat));
    }
}

/// Law: a window matches exactly when every non-wildcard pattern symbol
/// equals the text symbol under it; the symbols under `N` positions are
/// unconstrained.
pub proof fn lemma_wildcard_window(text: Seq<char>, pat: Seq<char>, i: int)
    ensures
        window_matches(text, pat, i) <==> (0 <= i && i + pat.len() <= text.len() && forall|j: int|
            0 <= j < pat.len() && pat[j] != 'N' ==> text[i + j] == #[trigger] pat[j]),
{
    if 0 <= i && i + pat.len() <= text.len() {
        if forall|j: int| 0 <= j < pat.len() && pat[j] != 'N' ==> text[i + j] == #[trigger] pat[j] {
            assert forall|j: int| 0 <= j < pat.len() implies symbol_matches(
                pat[j],
                text[i + j],
            ) by {
                if pat[j] != 'N' {
                    assert(text[i + j] == pat[j]);
                }
            }
        }
    }
}

/// The strand a match was found on.
#[derive(Clone, Copy, PartialEq, Eq, Structural, Debug)]
pub enum Strand {
    /// The pattern was the motif itself.
    Forward,
    /// The pattern was the motif's reverse complement.
    Reverse,
}

/// One reported match: the record identifier, the zero-based half-open
/// interval in forward-oriented record coordinates, the label of the
/// pattern that was actually matched, the strand, and the literal
/// matched text sliced from the record.
pub struct MotifMatch {
    /// The identifier of the record the match was found in.
    pub id: String,
    /// Inclusive start of the interval, counted in symbols.
    pub start: usize,
    /// Exclusive end of the interval, counted in symbols.
    pub end: usize,
    /// The pattern that was matched: the motif itself on the forward
    /// strand, its reverse complement on the reverse strand.
    pub label: String,
    /// The strand the match was found on.
    pub strand: Strand,
    /// The literal matched text, never re-complemented.
    pub text: String,
}

/// The mathematical content of one match.
pub struct MatchView {
    /// The record identifier.
    pub id: Seq<char>,
    /// Inclusive start of the interval.
    pub start: int,
    /// Exclusive end of the interval.
    pub end: int,
    /// The pattern that was matched.
    pub label: Seq<char>,
    /// The strand the match was found on.
    pub strand: Strand,
    /// The literal matched text.
    pub text: Seq<char>,
}

impl View for MotifMatch {
    type V = MatchView;

    open spec fn view(&self) -> MatchView {
        MatchView {
            id: self.id@,
            start: self.start as int,
            end: self.end as int,
            label: self.label@,
            strand: self.strand,
            text: self.text@,
        }
    }
}

/// The matches of one scan pass of one pattern over one record, in scan
/// order: each reported start paired with its window, labeled with the
/// pattern itself and the strand of the pass.
pub open spec fn strand_matches(
    id: Seq<char>,
    text: Seq<char>,
    pat: Seq<char>,
    strand: Strand,
) -> Seq<MatchView> {
    scan_starts_from(text, pat, 0).map_values(
        |st: int|
            (MatchView {
                id: id,
                start: st,
                end: st + pat.len(),
                label: pat,
                strand: strand,
                text: text.subrange(st, st + pat.len()),
            }),
    )
}

/// All matches of one motif for one record: the forward pass first,
/// then the reverse-complement pass, both over the same
/// forward-oriented text.
pub open spec fn motif_matches(id: Seq<char>, text: Seq<char>, motif: Seq<char>) -> Seq<
    MatchView,
> {
    strand_matches(id, text, motif, Strand::Forward) + strand_matches(
        id,
        text,
        rev_comp(motif),
        Strand::Reverse,
    )
}

/// All matches of an ordered motif list for one record, in motif
/// compile order.
pub open spec fn record_matches(id: Seq<char>, text: Seq<char>, motifs: Seq<Seq<char>>) -> Seq<
    MatchView,
>
    decreases motifs.len(),
{
    if motifs.len() == 0 {
        Seq::empty()
    } else {
        record_matches(id, text, motifs.drop_last()) + motif_matches(id, text, motifs.last())
    }
}

/// One scan pass: every leftmost non-overlapping match of one pattern
/// over the record text, reported under the given strand.
pub fn scan_pass(id: &str, text: &str, pat: &str, strand: Strand) -> (r: Vec<MotifMatch>)
    ensures
        r@.map_values(|m: MotifMatch| m@) == strand_matches(id@, text@, pat@, strand),
{
    let starts = scan_starts(text, pat);
    let m = pat.unicode_len();
    let n = text.unicode_len();
    proof {
        lemma_scan_starts_sound(text@, pat@, 0);
        assert forall|j: int| 0 <= j < starts@.len() implies window_matches(
            text@,
            pat@,
            #[trigger] starts@[j] as int,
        ) by {
            assert(starts@.map_values(|x: usize| x as int)[j] == starts@[j] as int);
        }
    }
    let mut r: Vec<MotifMatch> = Vec::new();
    let nk = starts.len();
    let mut k: usize = 0;
    while k < nk
        invariant
            nk == starts@.len(),
            k <= nk,
            m == pat@.len(),
            n == text@.len(),
            starts@.map_values(|x: usize| x as int) == scan_starts_from(text@, pat@, 0),
            forall|j: int|
                0 <= j < nk ==> window_matches(text@, pat@, #[trigger] starts@[j] as int),
            r@.map_values(|mm: MotifMatch| mm@) == strand_matches(
                id@,
                text@,
                pat@,
                strand,
            ).subrange(0, k as int),
        decreases nk - k,
    {
        let st = starts[k];
        assert(window_matches(text@, pat@, st as int));
        assert(st as int + m as int <= n);
        let en = st + m;
        let txt = text.substring_char(st, en).to_owned();
        let ghost pre = r@;
        r.push(
            MotifMatch {
                id: id.to_owned(),
                start: st,
                end: en,
                label: pat.to_owned(),
                strand,
                text: txt,
            },
        );
        proof {
            assert(scan_starts_from(text@, pat@, 0)[k as int] == st as int);
            assert(r@.map_values(|mm: MotifMatch| mm@) =~= pre.map_values(
                |mm: MotifMatch| mm@,
            ).push(r@.last()@));
            assert(r@.map_values(|mm: MotifMatch| mm@) =~= strand_matches(
                id@,
                text@,
                pat@,
                strand,
            ).subrange(0, k as int + 1));
        }
        k = k + 1;
    }
    proof {
        assert(strand_matches(id@, text@, pat@, strand).subrange(
            0,
            nk as int,
        ) =~= strand_matches(id@, text@, pat@, strand));
    }
    r
}

/// Scans one record against every compiled motif: for each motif in
/// compile order, the forward pass and then the reverse pass, all in
/// forward-oriented record coordinates.
pub fn scan_record(id: &str, text: &str, motifs: &Vec<CompiledMotif>) -> (r: Vec<MotifMatch>)
    requires
        forall|k: int| 0 <= k < motifs@.len() ==> (#[trigger] motifs@[k]).wf(),
    ensures
        r@.map_values(|m: MotifMatch| m@) == record_matches(
            id@,
            text@,
            motifs@.map_values(|cm: CompiledMotif| cm.forward@),
        ),
{
    let ghost motif_views = motifs@.map_values(|cm: CompiledMotif| cm.forward@);
    let mut r: Vec<MotifMatch> = Vec::new();
    proof {
        assert(motif_views.subrange(0, 0) =~= Seq::<Seq<char>>::empty());
        assert(r@.map_values(|m: MotifMatch| m@) =~= record_matches(
            id@,
            text@,
            motif_views.subrange(0, 0),
        ));
    }
    let n = motifs.len();
    let mut i: usize = 0;
    while i < n
        invariant
            n == motifs@.len(),
            i <= n,
            motif_views == motifs@.map_values(|cm: CompiledMotif| cm.forward@),
            forall|k: int| 0 <= k < n ==> (#[trigger] motifs@[k]).wf(),
            r@.map_values(|m: MotifMatch| m@) == record_matches(
                id@,
                text@,
                motif_views.subrange(0, i as int),
            ),
        decreases n - i,
    {
        let cm = &motifs[i];
        let ghost pre_fwd = r@.map_values(|m: MotifMatch| m@);
        let mut fwd = scan_pass(id, text, cm.forward.as_str(), Strand::Forward);
        let ghost fwd_views = fwd@.map_values(|m: MotifMatch| m@);
        r.append(&mut fwd);
        proof {
            assert(r@.map_values(|m: MotifMatch| m@) =~= pre_fwd + fwd_views);
        }
        let ghost pre_rev = r@.map_values(|m: MotifMatch| m@);
        let mut rev = scan_pass(id, text, cm.reverse.as_str(), Strand::Reverse);
        let ghost rev_views = rev@.map_values(|m: MotifMatch| m@);
        r.append(&mut rev);
        proof {
            assert(r@.map_values(|m: MotifMatch| m@) =~= pre_rev + rev_views);
            let sub = motif_views.subrange(0, i as int + 1);
            assert(sub.drop_last() =~= motif_views.subrange(0, i as int));
            assert(sub.last() == motifs@[i as int].forward@);
            assert(motifs@[i as int].reverse@ == rev_comp(motifs@[i as int].forward@));
            assert(r@.map_values(|m: MotifMatch| m@) =~= record_matches(id@, text@, sub));
        }
        i = i + 1;
    }
    proof {
        assert(motif_views.subrange(0, n as int) =~= motif_views);
    }
    r
}

/// Law: for two motifs compiled in order, all of the first motif's
/// forward matches precede its reverse matches, which precede the
/// second motif's forward matches, which precede its reverse matches.
pub proof fn lemma_two_motif_order(
    id: Seq<char>,
    text: Seq<char>,
    first: Seq<char>,
    second: Seq<char>,
)
    ensures
        record_matches(id, text, seq![first, second]) == strand_matches(
            id,
            text,
            first,
            Strand::Forward,
        ) + strand_matches(id, text, rev_comp(first), Strand::Reverse) + strand_matches(
            id,
            text,
            second,
            Strand::Forward,
        ) + strand_matches(id, text, rev_comp(second), Strand::Reverse),
{
    let both = seq![first, second];
    let one = seq![first];
    assert(both.drop_last() =~= one);
    assert(both.last() == second);
    assert(one.drop_last() =~= Seq::<Seq<char>>::empty());
    assert(one.last() == first);
    assert(record_matches(id, text, Seq::empty()) == Seq::<MatchView>::empty());
    assert(record_matches(id, text, one) =~= motif_matches(id, text, first));
    assert(record_matches(id, text, both) =~= strand_matches(id, text, first, Strand::Forward)
        + strand_matches(id, text, rev_comp(first), Strand::Reverse) + strand_matches(
        id,
        text,
        second,
        Strand::Forward,
    ) + strand_matches(id, text, rev_comp(second), Strand::Reverse));
}

} // verus!
