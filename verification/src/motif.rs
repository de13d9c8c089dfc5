//! The motif alphabet, reverse complements, and motif compilation.

use vstd::prelude::*;

verus! {

/// The five symbols a motif may contain: the four bases and the
/// single-symbol wildcard `N`.
pub open spec fn is_motif_char(c: char) -> bool {
    c == 'A' || c == 'T' || c == 'C' || c == 'G' || c == 'N'
}

/// A motif is valid when every one of its symbols belongs to the motif
/// alphabet.
pub open spec fn valid_motif(s: Seq<char>) -> bool {
    forall|i: int| 0 <= i < s.len() ==> is_motif_char(s[i])
}

/// Watson-Crick complement of one symbol; `N` is self-complementary.
pub open spec fn complement(c: char) -> char {
    if c == 'A' {
        'T'
    } else if c == 'T' {
        'A'
    } else if c == 'C' {
        'G'
    } else if c == 'G' {
        'C'
    } else {
        'N'
    }
}

/// Reverse complement: the symbol order reversed, each symbol complemented.
pub open spec fn rev_comp(s: Seq<char>) -> Seq<char> {
    Seq::new(s.len(), |i: int| complement(s[s.len() - 1 - i]))
}

/// The motif with every `N` replaced by the any-symbol pattern character.
pub open spec fn wildcard_pattern(s: Seq<char>) -> Seq<char> {
    s.map_values(|c: char| if c == 'N' { '.' } else { c })
}

/// Law: taking the reverse complement twice gives back the original motif.
pub proof fn lemma_reverse_complement_involution(s: Seq<char>)
    requires
        valid_motif(s),
    ensures
        rev_comp(rev_comp(s)) == s,
{
    assert forall|i: int| 0 <= i < s.len() implies rev_comp(rev_comp(s))[i] == s[i] by {
        assert(is_motif_char(s[i]));
    }
    assert(rev_comp(rev_comp(s)) =~= s);
}

/// The complement of one motif symbol, as a one-character string slice.
fn complement_str(c: char) -> (r: &'static str)
    requires
        is_motif_char(c),
    ensures
        r@ == seq![complement(c)],
{
    proof {
        reveal_strlit("T");
        reveal_strlit("A");
        reveal_strlit("G");
        reveal_strlit("C");
        reveal_strlit("N");
    }
    let r: &'static str = if c == 'A' {
        "T"
    } else if c == 'T' {
        "A"
    } else if c == 'C' {
        "G"
    } else if c == 'G' {
        "C"
    } else {
        "N"
    };
    proof {
        assert(r@ =~= seq![complement(c)]);
    }
    r
}

/// Reverse complement of a motif: reverses the symbol order and maps
/// A to T, T to A, C to G, G to C, and N to N.
pub fn reverse_complement(seq: &str) -> (r: String)
    requires
        valid_motif(seq@),
    ensures
        r@ == rev_comp(seq@),
{
    let n = seq.unicode_len();
    let mut r = String::new();
    let mut i: usize = 0;
    while i < n
        invariant
            n == seq@.len(),
            valid_motif(seq@),
            i <= n,
            r@ == rev_comp(seq@).subrange(0, i as int),
        decreases n - i,
    {
        let c = seq.get_char(n - 1 - i);
        assert(is_motif_char(c));
        let cs = complement_str(c);
        r.append(cs);
        proof {
            assert(r@ =~= rev_comp(seq@).subrange(0, i as int + 1));
        }
        i = i + 1;
    }
    proof {
        assert(rev_comp(seq@).subrange(0, n as int) =~= rev_comp(seq@));
    }
    r
}

/// The searchable pattern text for a motif: every `N` becomes the
/// any-symbol pattern character, every other symbol stands for itself.
pub fn regex_pattern(motif: &str) -> (r: String)
    ensures
        r@ == wildcard_pattern(motif@),
{
    let n = motif.unicode_len();
    let mut r = String::new();
    let mut i: usize = 0;
    while i < n
        invariant
            n == motif@.len(),
            i <= n,
            r@ == wildcard_pattern(motif@).subrange(0, i as int),
        decreases n - i,
    {
        proof {
            reveal_strlit(".");
        }
        let c = motif.get_char(i);
        if c == 'N' {
            r.append(".");
        } else {
            let one = motif.substring_char(i, i + 1);
            r.append(one);
        }
        proof {
            assert(r@ =~= wildcard_pattern(motif@).subrange(0, i as int + 1));
        }
        i = i + 1;
    }
    proof {
        assert(wildcard_pattern(motif@).subrange(0, n as int) =~= wildcard_pattern(motif@));
    }
    r
}

/// Whether every symbol of the motif belongs to the alphabet.
pub fn is_valid_motif(s: &str) -> (r: bool)
    ensures
        r == valid_motif(s@),
{
    let n = s.unicode_len();
    let mut i: usize = 0;
    while i < n
        invariant
            n == s@.len(),
            i <= n,
            forall|j: int| 0 <= j < i ==> is_motif_char(s@[j]),
        decreases n - i,
    {
        let c = s.get_char(i);
        if !(c == 'A' || c == 'T' || c == 'C' || c == 'G' || c == 'N') {
            assert(!is_motif_char(s@[i as int]));
            return false;
        }
        i = i + 1;
    }
    true
}

/// The whitespace that is stripped from the ends of a motif-file line.
pub open spec fn is_space(c: char) -> bool {
    c == ' ' || c == '\t' || c == '\r' || c == '\n'
}

/// The line with its leading whitespace removed.
pub open spec fn trim_front(s: Seq<char>) -> Seq<char>
    decreases s.len(),
{
    if s.len() > 0 && is_space(s.first()) {
        trim_front(s.drop_first())
    } else {
        s
    }
}

/// The line with its trailing whitespace removed.
pub open spec fn trim_back(s: Seq<char>) -> Seq<char>
    decreases s.len(),
{
    if s.len() > 0 && is_space(s.last()) {
        trim_back(s.drop_last())
    } else {
        s
    }
}

/// The line with whitespace removed from both ends.
pub open spec fn trim_of(s: Seq<char>) -> Seq<char> {
    trim_back(trim_front(s))
}

fn is_space_char(c: char) -> (r: bool)
    ensures
        r == is_space(c),
{
    c == ' ' || c == '\t' || c == '\r' || c == '\n'
}

/// The slice of the line that remains when surrounding whitespace is
/// stripped.
pub fn trim_line<'a>(s: &'a str) -> (r: &'a str)
    ensures
        r@ == trim_of(s@),
{
    let n = s.unicode_len();
    let mut lo: usize = 0;
    proof {
        assert(s@.subrange(0, n as int) =~= s@);
    }
    while lo < n && is_space_char(s.get_char(lo))
        invariant
            n == s@.len(),
            lo <= n,
            trim_front(s@) == trim_front(s@.subrange(lo as int, n as int)),
        decreases n - lo,
    {
        proof {
            let t = s@.subrange(lo as int, n as int);
            assert(t.first() == s@[lo as int]);
            assert(t.drop_first() =~= s@.subrange(lo as int + 1, n as int));
        }
        lo = lo + 1;
    }
    proof {
        assert(trim_front(s@) == s@.subrange(lo as int, n as int));
    }
    let mut hi: usize = n;
    while hi > lo && is_space_char(s.get_char(hi - 1))
        invariant
            n == s@.len(),
            lo <= hi <= n,
            trim_back(s@.subrange(lo as int, n as int)) == trim_back(
                s@.subrange(lo as int, hi as int),
            ),
        decreases hi,
    {
        proof {
            let t = s@.subrange(lo as int, hi as int);
            assert(t.last() == s@[hi - 1]);
            assert(t.drop_last() =~= s@.subrange(lo as int, hi as int - 1));
        }
        hi = hi - 1;
    }
    proof {
        assert(trim_back(s@.subrange(lo as int, hi as int)) == s@.subrange(lo as int, hi as int));
    }
    s.substring_char(lo, hi)
}

/// The motif strings that a motif file contributes: each line trimmed,
/// blank lines skipped, in file order.
pub open spec fn kept_lines(lines: Seq<Seq<char>>) -> Seq<Seq<char>>
    decreases lines.len(),
{
    if lines.len() == 0 {
        Seq::empty()
    } else {
        let prefix = kept_lines(lines.drop_last());
        let t = trim_of(lines.last());
        if t.len() == 0 {
            prefix
        } else {
            prefix.push(t)
        }
    }
}

/// The view of an optional motif argument.
pub open spec fn opt_view(o: Option<String>) -> Option<Seq<char>> {
    match o {
        Option::Some(m) => Option::Some(m@),
        Option::None => Option::None,
    }
}

/// The full ordered motif list: the single motif argument first, if it
/// was given, then the kept lines of the motif file.
pub open spec fn gathered_motifs(single: Option<Seq<char>>, lines: Seq<Seq<char>>) -> Seq<
    Seq<char>,
> {
    match single {
        Option::Some(m) => seq![m] + kept_lines(lines),
        Option::None => kept_lines(lines),
    }
}

/// Collects the raw motif strings from the optional single-motif
/// argument and the lines of the optional motif file.
pub fn collect_motifs(single: &Option<String>, lines: &Vec<String>) -> (r: Vec<String>)
    ensures
        r@.map_values(|m: String| m@) == gathered_motifs(
            opt_view(*single),
            lines@.map_values(|l: String| l@),
        ),
{
    let ghost line_views = lines@.map_values(|l: String| l@);
    let mut r: Vec<String> = Vec::new();
    match single {
        Option::Some(m) => {
            r.push(m.clone());
        },
        Option::None => {},
    }
    proof {
        assert(line_views.subrange(0, 0) =~= Seq::<Seq<char>>::empty());
        assert(r@.map_values(|m: String| m@) =~= gathered_motifs(
            opt_view(*single),
            line_views.subrange(0, 0),
        ));
    }
    let n = lines.len();
    let mut i: usize = 0;
    while i < n
        invariant
            n == lines@.len(),
            i <= n,
            line_views == lines@.map_values(|l: String| l@),
            r@.map_values(|m: String| m@) == gathered_motifs(
                opt_view(*single),
                line_views.subrange(0, i as int),
            ),
        decreases n - i,
    {
        let t = trim_line(lines[i].as_str());
        let ghost pre = r@;
        if !t.is_empty() {
            r.push(t.to_owned());
            proof {
                assert(r@.map_values(|m: String| m@) =~~= pre.map_values(|m: String| m@).push(
                    t@,
                ));
            }
        }
        proof {
            let sub = line_views.subrange(0, i as int + 1);
            assert(sub.drop_last() =~= line_views.subrange(0, i as int));
            assert(sub.last() == lines@[i as int]@);
            assert(r@.map_values(|m: String| m@) =~~= gathered_motifs(opt_view(*single), sub));
        }
        i = i + 1;
    }
    proof {
        assert(line_views.subrange(0, n as int) =~= line_views);
    }
    r
}

/// Why motif compilation was refused. Both kinds are configuration
/// errors: they are raised before any record is scanned, so a bad
/// configuration produces no output at all.
#[derive(Clone, Copy, PartialEq, Eq, Structural, Debug)]
pub enum MotifError {
    /// Neither the single-motif argument nor the motif file yielded a motif.
    NoMotifs,
    /// The motif at this position of the compile order holds a symbol
    /// outside the alphabet.
    InvalidMotif { index: usize },
}

/// One motif, compiled: the validated forward string and its reverse
/// complement. The forward string is the pattern of the `+` strand and
/// its label; the reverse complement is both for the `-` strand.
#[derive(Debug)]
pub struct CompiledMotif {
    /// The motif exactly as supplied.
    pub forward: String,
    /// Its reverse complement.
    pub reverse: String,
}

impl CompiledMotif {
    /// A compiled motif is well formed when the forward string is a
    /// valid motif and the reverse string is its reverse complement.
    pub open spec fn wf(self) -> bool {
        &&& valid_motif(self.forward@)
        &&& self.reverse@ == rev_comp(self.forward@)
    }
}

/// Compiles the gathered motif strings, in order. Fails on an empty
/// motif list and on the first motif with a symbol outside the
/// alphabet, before any scanning can begin.
pub fn compile_motifs(motifs: &Vec<String>) -> (r: Result<Vec<CompiledMotif>, MotifError>)
    ensures
        r is Err <==> (motifs@.len() == 0 || exists|k: int|
            0 <= k < motifs@.len() && !valid_motif(#[trigger] motifs@[k]@)),
        match r {
            Ok(compiled) => {
                &&& motifs@.len() > 0
                &&& compiled@.len() == motifs@.len()
                &&& forall|k: int|
                    0 <= k < motifs@.len() ==> (#[trigger] compiled@[k]).forward@ == motifs@[k]@
                &&& forall|k: int|
                    0 <= k < motifs@.len() ==> (#[trigger] compiled@[k]).reverse@ == rev_comp(
                        motifs@[k]@,
                    )
                &&& forall|k: int| 0 <= k < motifs@.len() ==> (#[trigger] compiled@[k]).wf()
            },
            Err(MotifError::NoMotifs) => motifs@.len() == 0,
            Err(MotifError::InvalidMotif { index }) => {
                &&& 0 <= index < motifs@.len()
                &&& !valid_motif(motifs@[index as int]@)
                &&& forall|k: int| 0 <= k < index ==> valid_motif(motifs@[k]@)
            },
        },
{
    if motifs.len() == 0 {
        return Err(MotifError::NoMotifs);
    }
    let n = motifs.len();
    let mut compiled: Vec<CompiledMotif> = Vec::new();
    let mut i: usize = 0;
    while i < n
        invariant
            n == motifs@.len(),
            i <= n,
            compiled@.len() == i,
            forall|k: int| 0 <= k < i ==> valid_motif(motifs@[k]@),
            forall|k: int| 0 <= k < i ==> (#[trigger] compiled@[k]).forward@ == motifs@[k]@,
            forall|k: int|
                0 <= k < i ==> (#[trigger] compiled@[k]).reverse@ == rev_comp(motifs@[k]@),
        decreases n - i,
    {
        let m = &motifs[i];
        if !is_valid_motif(m.as_str()) {
            return Err(MotifError::InvalidMotif { index: i });
        }
        let reverse = reverse_complement(m.as_str());
        compiled.push(CompiledMotif { forward: m.clone(), reverse });
        i = i + 1;
    }
    Ok(compiled)
}

} // verus!
