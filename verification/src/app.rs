//! Application-side view state that carries no terminal code: which view is
//! active, which detail tab is selected, the filter bar's input mode, and
//! the heuristic that picks a display title out of a summary preview.

use crate::text::{
    find_str, is_space, lemma_spec_find_at, lemma_spec_find_none, lower_code, spec_find, spec_trim,
    trim_range,
};
use vstd::prelude::*;
use vstd::string::StrSliceExecFns;
use vstd::string::StringExecFns;
use vstd::view::View as _;

verus! {

/// Which view is currently active.
#[derive(Debug, Clone, PartialEq, Eq, Structural)]
pub enum View {
    List,
    Detail,
    Similar,
    Filters,
}

/// Which tab is selected in the detail view.
#[derive(Debug, Clone, Copy, PartialEq, Eq, Structural)]
pub enum DetailTab {
    Summary,
    Transcript,
    Timestamps,
}

impl DetailTab {
    /// The tab to the right, wrapping around.
    pub fn next(self) -> (r: Self)
        ensures
            r == (match self {
                DetailTab::Summary => DetailTab::Transcript,
                DetailTab::Transcript => DetailTab::Timestamps,
                DetailTab::Timestamps => DetailTab::Summary,
            }),
    {
        match self {
            DetailTab::Summary => DetailTab::Transcript,
            DetailTab::Transcript => DetailTab::Timestamps,
            DetailTab::Timestamps => DetailTab::Summary,
        }
    }

    /// The tab to the left, wrapping around.
    pub fn prev(self) -> (r: Self)
        ensures
            r == (match self {
                DetailTab::Summary => DetailTab::Timestamps,
                DetailTab::Transcript => DetailTab::Summary,
                DetailTab::Timestamps => DetailTab::Transcript,
            }),
    {
        match self {
            DetailTab::Summary => DetailTab::Timestamps,
            DetailTab::Transcript => DetailTab::Summary,
            DetailTab::Timestamps => DetailTab::Transcript,
        }
    }

    /// The tab's display name.
    pub fn label(self) -> (r: &'static str)
        ensures
            r@ == (match self {
                DetailTab::Summary => "Summary"@,
                DetailTab::Transcript => "Transcript"@,
                DetailTab::Timestamps => "Timestamps"@,
            }),
    {
        match self {
            DetailTab::Summary => "Summary",
            DetailTab::Transcript => "Transcript",
            DetailTab::Timestamps => "Timestamps",
        }
    }
}

/// Input mode for the filter bar.
#[derive(Debug, Clone, PartialEq, Eq, Structural)]
pub enum InputMode {
    Normal,
    Editing,
}

// ── Display titles ───────────────────────────────────────────────────────

/// Index of the newline that ends the line starting at `from`, or the end
/// of the text.
pub open spec fn line_end(s: Seq<char>, from: int) -> int
    decreases s.len() - from
        when 0 <= from <= s.len()
{
    if from >= s.len() {
        s.len() as int
    } else if s[from] == '\n' {
        from
    } else {
        line_end(s, from + 1)
    }
}

pub proof fn lemma_line_end_bounds(s: Seq<char>, from: int)
    requires
        0 <= from <= s.len(),
    ensures
        from <= line_end(s, from) <= s.len(),
    decreases s.len() - from,
{
    if from < s.len() && s[from] != '\n' {
        lemma_line_end_bounds(s, from + 1);
    }
}

/// A line with one trailing carriage return removed, as `str::lines` does.
pub open spec fn strip_cr(l: Seq<char>) -> Seq<char> {
    if l.len() > 0 && l.last() == '\r' {
        l.drop_last()
    } else {
        l
    }
}

/// The line starting at `from`.
pub open spec fn line_at(s: Seq<char>, from: int) -> Seq<char> {
    strip_cr(s.subrange(from, line_end(s, from)))
}

/// Where the next line starts.
pub open spec fn next_line_start(s: Seq<char>, from: int) -> int {
    if line_end(s, from) < s.len() {
        line_end(s, from) + 1
    } else {
        s.len() as int
    }
}

/// `s` starts with `pat` up to ASCII case.
pub open spec fn ci_prefix(s: Seq<char>, pat: Seq<char>) -> bool {
    pat.len() <= s.len() && forall|j: int|
        0 <= j < pat.len() ==> lower_code(#[trigger] s[j]) == lower_code(pat[j])
}

/// The title the line scan settles on, starting at `from`: the first line
/// whose trimmed text is neither empty nor a generic lead-in.  A line that
/// opens like a bold abstract heading yields the trimmed text after its
/// `**:` marker when that is present and nonempty; otherwise the scan moves
/// on.
pub open spec fn scan_title(s: Seq<char>, from: int) -> Option<Seq<char>>
    decreases s.len() - from
        when 0 <= from <= s.len()
        via scan_title_dec
{
    if from >= s.len() {
        None
    } else {
        let t = spec_trim(line_at(s, from));
        let nxt = next_line_start(s, from);
        if t.len() == 0 {
            scan_title(s, nxt)
        } else if ci_prefix(t, "**abstract:**"@) {
            match spec_find(t, "**:"@) {
                Some(idx) => {
                    let rest = spec_trim(t.skip(idx + 3));
                    if rest.len() > 0 {
                        Some(rest)
                    } else {
                        scan_title(s, nxt)
                    }
                },
                None => scan_title(s, nxt),
            }
        } else if ci_prefix(t, "okay, here is the abstract"@) {
            scan_title(s, nxt)
        } else {
            Some(t)
        }
    }
}

#[via_fn]
proof fn scan_title_dec(s: Seq<char>, from: int) {
    lemma_line_end_bounds(s, from);
}

/// The display title for a summary preview: "No summary" for an empty
/// preview, the scanned title when the scan settles on one, and the first
/// line as a fallback.
pub open spec fn spec_display_title(s: Seq<char>) -> Seq<char> {
    if s.len() == 0 {
        "No summary"@
    } else {
        match scan_title(s, 0) {
            Some(t) => t,
            None => line_at(s, 0),
        }
    }
}

/// Whether `s` starts with `pat`, folding ASCII capitals.
fn starts_fold(s: &str, pat: &str) -> (r: bool)
    ensures
        r == ci_prefix(s@, pat@),
{
    let slen = s.unicode_len();
    let plen = pat.unicode_len();
    if plen > slen {
        return false;
    }
    let mut j: usize = 0;
    while j < plen
        invariant
            j <= plen,
            plen <= slen,
            slen as nat == s@.len(),
            plen as nat == pat@.len(),
            forall|k: int| 0 <= k < j ==> lower_code(#[trigger] s@[k]) == lower_code(pat@[k]),
        decreases plen - j,
    {
        let sc = s.get_char(j) as u32;
        let pc = pat.get_char(j) as u32;
        let sf = if sc >= 65 && sc <= 90 {
            sc + 32
        } else {
            sc
        };
        let pf = if pc >= 65 && pc <= 90 {
            pc + 32
        } else {
            pc
        };
        if sf != pf {
            proof {
                assert(lower_code(s@[j as int]) != lower_code(pat@[j as int]));
            }
            return false;
        }
        j += 1;
    }
    true
}

/// Find the end of the line starting at `from`.
fn find_line_end(s: &str, from: usize) -> (e: usize)
    requires
        from as nat <= s@.len(),
    ensures
        from <= e <= s@.len(),
        e as int == line_end(s@, from as int),
    decreases s@.len() - from,
{
    let len = s.unicode_len();
    let mut e = from;
    while e < len && s.get_char(e) != '\n'
        invariant
            from <= e <= len,
            len as nat == s@.len(),
            forall|j: int| from <= j < e ==> s@[j] != '\n',
        decreases len - e,
    {
        e += 1;
    }
    proof {
        lemma_line_end_stops(s@, from as int, e as int);
    }
    e
}

proof fn lemma_line_end_stops(s: Seq<char>, from: int, e: int)
    requires
        0 <= from <= e <= s.len(),
        forall|j: int| from <= j < e ==> s[j] != '\n',
        e < s.len() ==> s[e] == '\n',
    ensures
        line_end(s, from) == e,
    decreases e - from,
{
    if from < e {
        lemma_line_end_stops(s, from + 1, e);
    }
}

/// Helper to get a meaningful title prefix by skipping generic leads.
pub fn get_display_title(preview: &str) -> (r: String)
    ensures
        r@ == spec_display_title(preview@),
{
    let len = preview.unicode_len();
    if len == 0 {
        return String::from_str("No summary");
    }
    let mut from: usize = 0;
    while from < len
        invariant
            from <= len,
            len as nat == preview@.len(),
            scan_title(preview@, 0) == scan_title(preview@, from as int),
        decreases len - from,
    {
        let e = find_line_end(preview, from);
        let lei = if e > from && preview.get_char(e - 1) == '\r' {
            e - 1
        } else {
            e
        };
        proof {
            let raw = preview@.subrange(from as int, e as int);
            if e > from && preview@[e - 1] == '\r' {
                assert(raw.last() == '\r');
                assert(raw.drop_last() =~= preview@.subrange(from as int, lei as int));
            }
            assert(line_at(preview@, from as int) == preview@.subrange(from as int, lei as int));
        }
        let bounds = trim_range(preview, from, lei);
        let a = bounds.0;
        let b = bounds.1;
        let nxt = if e < len {
            e + 1
        } else {
            len
        };
        proof {
            assert(next_line_start(preview@, from as int) == nxt as int);
        }
        if b > a {
            let t = preview.substring_char(a, b);
            proof {
                assert(t@ == spec_trim(line_at(preview@, from as int)));
            }
            if starts_fold(t, "**abstract:**") {
                match find_str(t, "**:") {
                    Some(idx) => {
                        proof {
                            reveal_strlit("**:");
                            assert("**:"@.len() == 3);
                            lemma_spec_find_at(t@, "**:"@, idx as int);
                        }
                        let tlen = t.unicode_len();
                        let rb = trim_range(t, idx + 3, tlen);
                        proof {
                            assert(t@.subrange(idx + 3, tlen as int) =~= t@.skip(idx + 3));
                        }
                        if rb.1 > rb.0 {
                            proof {
                                assert(t@.subrange(rb.0 as int, rb.1 as int) == spec_trim(
                                    t@.skip(idx + 3),
                                ));
                            }
                            return String::from_str(t.substring_char(rb.0, rb.1));
                        }
                    },
                    None => {
                        proof {
                            lemma_spec_find_none(t@, "**:"@);
                        }
                    },
                }
            } else if starts_fold(t, "okay, here is the abstract") {
            } else {
                return String::from_str(t);
            }
        }
        from = nxt;
    }
    let e0 = find_line_end(preview, 0);
    let lei0 = if e0 > 0 && preview.get_char(e0 - 1) == '\r' {
        e0 - 1
    } else {
        e0
    };
    proof {
        let raw = preview@.subrange(0, e0 as int);
        if e0 > 0 && preview@[e0 - 1] == '\r' {
            assert(raw.last() == '\r');
            assert(raw.drop_last() =~= preview@.subrange(0, lei0 as int));
        }
        assert(line_at(preview@, 0) == preview@.subrange(0, lei0 as int));
    }
    String::from_str(preview.substring_char(0, lei0))
}

} // verus!
