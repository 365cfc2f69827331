use vstd::prelude::*;

use crate::error::ClamAVClientError;

verus! {

/// The marker that introduces each segment of a scan reply, `"stream: "`.
pub open spec fn stream_marker() -> Seq<char> {
    seq!['s', 't', 'r', 'e', 'a', 'm', ':', ' ']
}

/// The prefix of a segment that reports a clean scan, `"OK"`.
pub open spec fn clean_marker() -> Seq<char> {
    seq!['O', 'K']
}

/// The suffix that follows a signature name, `" FOUND\0"`.
pub open spec fn found_suffix() -> Seq<char> {
    seq![' ', 'F', 'O', 'U', 'N', 'D', '\0']
}

/// `p` occurs in `s` at position `i`.
pub open spec fn occurs_at(s: Seq<char>, i: int, p: Seq<char>) -> bool {
    0 <= i && i + p.len() <= s.len() && s.subrange(i, i + p.len()) == p
}

/// The pieces of `s[start..]` cut at the leftmost non-overlapping occurrences
/// of the marker, where no occurrence starts in `s[start..i]`.
pub open spec fn pieces_from(s: Seq<char>, start: int, i: int) -> Seq<Seq<char>>
    decreases s.len() - i,
{
    if i + stream_marker().len() > s.len() {
        seq![s.subrange(start, s.len() as int)]
    } else if occurs_at(s, i, stream_marker()) {
        seq![s.subrange(start, i)] + pieces_from(s, i + 8, i + 8)
    } else {
        pieces_from(s, start, i + 1)
    }
}

/// The segments of a reply: what follows each marker, up to the next one.
/// The text before the first marker is dropped.
pub open spec fn segments(s: Seq<char>) -> Seq<Seq<char>> {
    pieces_from(s, 0, 0).drop_first()
}

/// A segment that reports a clean scan.
pub open spec fn is_clean_segment(g: Seq<char>) -> bool {
    occurs_at(g, 0, clean_marker())
}

/// A segment with its trailing `" FOUND\0"` taken off, where it has one.
pub open spec fn strip_found(g: Seq<char>) -> Seq<char> {
    if occurs_at(g, g.len() - 7, found_suffix()) {
        g.subrange(0, g.len() - 7)
    } else {
        g
    }
}

/// The verdict that a reply states: `None` where it holds no marker, else
/// whether it reports an infection, and the names of what was found.
pub open spec fn reply_verdict(s: Seq<char>) -> Option<(bool, Seq<Seq<char>>)> {
    let g = segments(s);
    if g.len() == 0 {
        None
    } else if exists|k: int| 0 <= k < g.len() && is_clean_segment(#[trigger] g[k]) {
        Some((false, Seq::empty()))
    } else {
        Some((true, g.map_values(|x: Seq<char>| strip_found(x))))
    }
}

/// The pieces of `s` that a list of bounds cuts out.
spec fn cut(s: Seq<char>, b: Seq<(usize, usize)>) -> Seq<Seq<char>> {
    b.map_values(|p: (usize, usize)| s.subrange(p.0 as int, p.1 as int))
}

/// The result of a scan.
#[derive(Debug)]
pub struct ScanResult {
    /// If a malicious file was found within the scanned item.
    pub is_infected: bool,
    /// Names of the detected infections.
    pub detected_infections: Vec<String>,
}

/// Whether `pat` occurs in `cs` at position `i`.
fn has_at(cs: &Vec<char>, i: usize, pat: &Vec<char>) -> (r: bool)
    ensures
        r == occurs_at(cs@, i as int, pat@),
{
    if i > cs.len() || cs.len() - i < pat.len() {
        return false;
    }
    let len = cs.len();
    let mut j: usize = 0;
    while j < pat.len()
        invariant
            len == cs@.len(),
            i + pat@.len() <= len,
            j <= pat@.len(),
            forall|k: int| 0 <= k < j ==> cs@[i + k] == pat@[k],
        decreases pat.len() - j,
    {
        if cs[i + j] != pat[j] {
            assert(cs@.subrange(i as int, i + pat@.len())[j as int] != pat@[j as int]);
            return false;
        }
        j += 1;
    }
    assert(cs@.subrange(i as int, i + pat@.len()) =~= pat@);
    true
}

impl ScanResult {
    /// The names of the detected infections, as text.
    pub open spec fn names(&self) -> Seq<Seq<char>> {
        self.detected_infections@.map_values(|n: String| n@)
    }

    /// Parses the text of a scan reply.
    ///
    /// Any segment that starts with `OK` makes the result clean, whatever the
    /// other segments say. Otherwise each segment, less a trailing
    /// `" FOUND\0"`, is the name of a detected infection. Text without the
    /// `"stream: "` marker is refused.
    pub fn parse(s: &str) -> (r: Result<ScanResult, ClamAVClientError>)
        ensures
            r is Ok <==> reply_verdict(s@) is Some,
            r matches Ok(v) ==> reply_verdict(s@) == Some((v.is_infected, v.names())),
            r matches Err(e) ==> e is UnableToParseResponse && e->UnableToParseResponse_0@ == s@,
    {
        let mut cs: Vec<char> = Vec::new();
        for c in it: s.chars()
            invariant
                cs@ == it.seq().take(it.index() as int),
        {
            cs.push(c);
        }
        assert(cs@ == s@);
        let ghost t = s@;
        let n = cs.len();
        let marker: Vec<char> = vec!['s', 't', 'r', 'e', 'a', 'm', ':', ' '];
        assert(marker@ =~= stream_marker());
        // Cut the text at each marker, left to right.
        let mut bounds: Vec<(usize, usize)> = Vec::new();
        let mut start: usize = 0;
        let mut i: usize = 0;
        while n - i >= 8
            invariant
                cs@ == t,
                n == t.len(),
                marker@ == stream_marker(),
                start <= i <= n,
                forall|k: int| 0 <= k < bounds@.len() ==> (#[trigger] bounds@[k]).0 <= bounds@[k].1 <= n,
                pieces_from(t, 0, 0) == cut(t, bounds@) + pieces_from(t, start as int, i as int),
            decreases n - i,
        {
            let ghost old_bounds = bounds@;
            if has_at(&cs, i, &marker) {
                bounds.push((start, i));
                proof {
                    assert(cut(t, bounds@) =~= cut(t, old_bounds).push(t.subrange(start as int, i as int)));
                    assert(cut(t, bounds@) + pieces_from(t, i + 8, i + 8) =~= cut(t, old_bounds)
                        + (seq![t.subrange(start as int, i as int)] + pieces_from(t, i + 8, i + 8)));
                }
                start = i + 8;
                i = i + 8;
            } else {
                i = i + 1;
            }
        }
        let ghost old_bounds = bounds@;
        bounds.push((start, n));
        assert(cut(t, bounds@) =~= cut(t, old_bounds).push(t.subrange(start as int, n as int)));
        assert(pieces_from(t, 0, 0) =~= cut(t, bounds@));
        let ghost g = segments(t);
        assert(g =~= cut(t, bounds@).drop_first());
        if bounds.len() < 2 {
            return Err(ClamAVClientError::UnableToParseResponse(String::from_str(s)));
        }
        // Any segment that starts with the clean marker decides.
        let ok: Vec<char> = vec!['O', 'K'];
        assert(ok@ =~= clean_marker());
        let mut k: usize = 1;
        while k < bounds.len()
            invariant
                cs@ == t,
                n == t.len(),
                ok@ == clean_marker(),
                1 <= k <= bounds@.len(),
                forall|m: int| 0 <= m < bounds@.len() ==> (#[trigger] bounds@[m]).0 <= bounds@[m].1 <= n,
                g == cut(t, bounds@).drop_first(),
                g == segments(t),
                s@ == t,
                forall|m: int| 0 <= m < k - 1 ==> !is_clean_segment(#[trigger] g[m]),
            decreases bounds.len() - k,
        {
            let (a, b) = bounds[k];
            let hit = b - a >= 2 && has_at(&cs, a, &ok);
            assert(g[k - 1] == t.subrange(a as int, b as int));
            if b - a >= 2 {
                assert(g[k - 1].subrange(0, 2) =~= t.subrange(a as int, a + 2));
            }
            if hit {
                assert(is_clean_segment(g[k - 1]));
                assert(g.len() == bounds@.len() - 1);
                let r = ScanResult { is_infected: false, detected_infections: Vec::new() };
                assert(r.names() =~= Seq::<Seq<char>>::empty());
                return Ok(r);
            }
            assert(!is_clean_segment(g[k - 1]));
            k += 1;
        }
        // Otherwise every segment names an infection.
        let found: Vec<char> = vec![' ', 'F', 'O', 'U', 'N', 'D', '\0'];
        assert(found@ =~= found_suffix());
        let mut names: Vec<String> = Vec::new();
        let mut k: usize = 1;
        while k < bounds.len()
            invariant
                cs@ == t,
                s@ == t,
                n == t.len(),
                found@ == found_suffix(),
                1 <= k <= bounds@.len(),
                forall|m: int| 0 <= m < bounds@.len() ==> (#[trigger] bounds@[m]).0 <= bounds@[m].1 <= n,
                g == cut(t, bounds@).drop_first(),
                g == segments(t),
                names@.len() == k - 1,
                forall|m: int| 0 <= m < k - 1 ==> (#[trigger] names@[m])@ == strip_found(g[m]),
            decreases bounds.len() - k,
        {
            let (a, b) = bounds[k];
            assert(g[k - 1] == t.subrange(a as int, b as int));
            let end = if b - a >= 7 && has_at(&cs, b - 7, &found) {
                assert(t.subrange(a as int, b as int).subrange(b - a - 7, b - a as int) =~= t.subrange(b - 7, b as int));
                b - 7
            } else {
                proof {
                    if b - a >= 7 {
                        assert(t.subrange(a as int, b as int).subrange(b - a - 7, b - a as int) =~= t.subrange(b - 7, b as int));
                    }
                }
                b
            };
            let piece = s.substring_char(a, end);
            assert(piece@ =~= strip_found(g[k - 1]));
            names.push(String::from_str(piece));
            k += 1;
        }
        assert(names@.map_values(|x: String| x@) =~= g.map_values(|x: Seq<char>| strip_found(x)));
        Ok(ScanResult { is_infected: true, detected_infections: names })
    }
}

impl std::str::FromStr for ScanResult {
    type Err = ClamAVClientError;

    /// Parses the text of a scan reply, as [`ScanResult::parse`] does.
    fn from_str(s: &str) -> (r: Result<ScanResult, ClamAVClientError>)
        ensures
            r is Ok <==> reply_verdict(s@) is Some,
            r matches Ok(v) ==> reply_verdict(s@) == Some((v.is_infected, v.names())),
            r matches Err(e) ==> e is UnableToParseResponse && e->UnableToParseResponse_0@ == s@,
    {
        ScanResult::parse(s)
    }
}

/// Parsing depends on the reply text alone: the same text parsed twice gives
/// the same verdict.
pub proof fn lemma_parse_deterministic(a: Seq<char>, b: Seq<char>)
    requires
        a == b,
    ensures
        reply_verdict(a) == reply_verdict(b),
{
}

/// A verdict reports an infection exactly when it names at least one, and a
/// clean verdict comes only from a reply with a segment that starts with `OK`.
pub proof fn lemma_verdict_consistent(s: Seq<char>)
    requires
        reply_verdict(s) is Some,
    ensures
        reply_verdict(s) matches Some((infected, names)) ==> (infected <==> names.len() > 0),
        reply_verdict(s) matches Some((infected, names)) ==> (!infected ==> exists|k: int|
            0 <= k < segments(s).len() && is_clean_segment(#[trigger] segments(s)[k])),
{
}

} // verus!
