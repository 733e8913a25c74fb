//! Content windowing: applying an optional character cap followed by an
//! optional line-range cap to a file's text, without splitting multi-byte
//! characters (all limits count characters, never bytes).

use vstd::prelude::*;
use vstd::math::{max, min};
use crate::models::{find_from, lemma_find_from_first, lemma_find_from_none, matches_at, LineRange};

verus! {

/// The text split into line segments, each keeping its trailing line
/// terminator when present; a final line without a terminator is kept too.
pub open spec fn lines_of(s: Seq<char>) -> Seq<Seq<char>>
    decreases s.len(),
{
    if s.len() == 0 {
        seq![]
    } else {
        match find_from(s, seq!['\n'], 0) {
            Some(i) => {
                if 0 <= i < s.len() {
                    seq![s.take(i + 1)] + lines_of(s.skip(i + 1))
                } else {
                    seq![s]
                }
            },
            None => seq![s],
        }
    }
}

/// The concatenation of the segments with indices in `[lo, hi)`.
pub open spec fn cat_lines(ls: Seq<Seq<char>>, lo: int, hi: int) -> Seq<char>
    decreases hi - lo,
{
    if lo >= hi {
        seq![]
    } else {
        ls[lo] + cat_lines(ls, lo + 1, hi)
    }
}

/// The segments whose 1-based line number lies in `start..=end`,
/// concatenated. A zero bound, an inverted range, or a start beyond the
/// last line yields the empty text.
pub open spec fn slice_lines_spec(s: Seq<char>, start: int, end: int) -> Seq<char> {
    if start < 1 || end < 1 || end < start {
        seq![]
    } else {
        let ls = lines_of(s);
        let lo = min(start - 1, ls.len() as int);
        let hi = max(lo, min(end, ls.len() as int));
        cat_lines(ls, lo, hi)
    }
}

/// The text with at most `max_chars` leading characters kept, then with
/// the line range applied; the character cap comes first, and an unbounded
/// range end reaches the last line.
pub open spec fn apply_content_limits_spec(
    s: Seq<char>,
    line_range: Option<LineRange>,
    max_chars: Option<usize>,
) -> Seq<char> {
    let t = match max_chars {
        Some(limit) => if limit < s.len() {
            s.take(limit as int)
        } else {
            s
        },
        None => s,
    };
    match line_range {
        None => t,
        Some(range) => {
            let (start, end) = range.spec_bounds();
            match end {
                Some(e) => slice_lines_spec(t, start as int, e as int),
                None => slice_lines_spec(t, start as int, lines_of(t).len() as int),
            }
        },
    }
}

proof fn lemma_cat_lines_snoc(ls: Seq<Seq<char>>, lo: int, k: int)
    requires
        lo <= k,
    ensures
        cat_lines(ls, lo, k + 1) == cat_lines(ls, lo, k) + ls[k],
    decreases k - lo,
{
    if lo == k {
        assert(cat_lines(ls, lo, lo) + ls[k] =~= ls[k] + cat_lines(ls, k + 1, k + 1));
    } else {
        lemma_cat_lines_snoc(ls, lo + 1, k);
        assert(ls[lo] + (cat_lines(ls, lo + 1, k) + ls[k]) =~= (ls[lo] + cat_lines(ls, lo + 1, k))
            + ls[k]);
    }
}

proof fn lemma_lines_count(s: Seq<char>)
    ensures
        lines_of(s).len() <= s.len(),
    decreases s.len(),
{
    if s.len() > 0 {
        match find_from(s, seq!['\n'], 0) {
            Some(i) => {
                if 0 <= i < s.len() {
                    lemma_lines_count(s.skip(i + 1));
                }
            },
            None => {},
        }
    }
}

/// The lines of `content` whose 1-based number lies in `start..=end`,
/// each keeping its line terminator, concatenated. A zero bound or an
/// inverted range yields the empty string.
pub fn slice_lines(content: &str, start: usize, end: usize) -> (r: String)
    ensures
        r@ == slice_lines_spec(content@, start as int, end as int),
{
    if start == 0 || end == 0 || end < start {
        return String::new();
    }
    let n = content.unicode_len();
    let ghost s = content@;
    let ghost ls = lines_of(s);
    let ghost lo = min(start - 1, ls.len() as int);
    let ghost hi = max(lo, min(end as int, ls.len() as int));
    proof {
        lemma_lines_count(s);
        assert(s.skip(0) =~= s);
        assert(ls.skip(0) =~= ls);
    }
    let mut out = String::new();
    let mut pos: usize = 0;
    let mut line_idx: usize = 0;
    while pos < n
        invariant
            s == content@,
            n == s.len(),
            ls == lines_of(s),
            1 <= start <= end,
            lo == min(start - 1, ls.len() as int),
            hi == max(lo, min(end as int, ls.len() as int)),
            ls.len() <= n,
            0 <= pos <= n,
            line_idx <= ls.len(),
            lines_of(s.skip(pos as int)) == ls.skip(line_idx as int),
            out@ == cat_lines(ls, lo, max(lo, min(line_idx as int, hi))),
        decreases n - pos,
    {
        let ghost suffix = s.skip(pos as int);
        let mut j: usize = pos;
        while j < n && content.get_char(j) != '\n'
            invariant
                s == content@,
                n == s.len(),
                pos <= j <= n,
                forall|q: int| pos <= q < j ==> s[q] != '\n',
            decreases n - j,
        {
            j = j + 1;
        }
        let seg_end = if j < n {
            j + 1
        } else {
            n
        };
        proof {
            assert(suffix.len() > 0);
            assert forall|q: int| 0 <= q < j - pos implies !matches_at(suffix, seq!['\n'], q) by {
                assert(suffix[q] == s[pos + q]);
                if matches_at(suffix, seq!['\n'], q) {
                    assert(suffix.subrange(q, q + 1)[0] == suffix[q]);
                }
            }
            if j < n {
                assert(suffix.subrange(j - pos, j - pos + 1) =~= seq!['\n']) by {
                    assert(suffix[j - pos] == s[j as int]);
                }
                assert(matches_at(suffix, seq!['\n'], j - pos));
                lemma_find_from_first(suffix, seq!['\n'], 0, j - pos);
                assert(lines_of(suffix) == seq![suffix.take(j - pos + 1)] + lines_of(
                    suffix.skip(j - pos + 1),
                ));
            } else {
                assert forall|q: int| 0 <= q implies !matches_at(suffix, seq!['\n'], q) by {
                    if q < j - pos {
                    } else {
                        assert(q + 1 > suffix.len() || suffix[q] == s[pos + q]);
                        if matches_at(suffix, seq!['\n'], q) {
                            assert(suffix.subrange(q, q + 1)[0] == suffix[q]);
                        }
                    }
                }
                lemma_find_from_none(suffix, seq!['\n'], 0);
                assert(lines_of(suffix) == seq![suffix]);
            }
            assert(suffix.take(seg_end - pos) =~= s.subrange(pos as int, seg_end as int));
            assert(suffix.skip(seg_end - pos) =~= s.skip(seg_end as int));
            // the current line is the next unconsumed one, and the rest follow
            assert(ls.skip(line_idx as int)[0] == s.subrange(pos as int, seg_end as int));
            assert(line_idx < ls.len());
            assert(ls[line_idx as int] == s.subrange(pos as int, seg_end as int));
            assert(ls.skip(line_idx as int).skip(1) =~= ls.skip(line_idx + 1));
            if j < n {
                assert(lines_of(s.skip(seg_end as int)) == ls.skip(line_idx as int).skip(1));
            } else {
                assert(s.skip(seg_end as int) =~= Seq::<char>::empty());
                assert(lines_of(s.skip(seg_end as int)) =~= Seq::<Seq<char>>::empty());
                assert(ls.skip(line_idx as int).skip(1) =~= Seq::<Seq<char>>::empty());
            }
        }
        if start <= line_idx + 1 && line_idx + 1 <= end {
            proof {
                assert(lo <= line_idx < hi);
                lemma_cat_lines_snoc(ls, lo, line_idx as int);
            }
            out.append(content.substring_char(pos, seg_end));
        }
        pos = seg_end;
        line_idx = line_idx + 1;
    }
    proof {
        assert(s.skip(pos as int) =~= Seq::<char>::empty());
        assert(lines_of(s.skip(pos as int)) =~= Seq::<Seq<char>>::empty());
        assert(line_idx == ls.len());
    }
    out
}

/// Apply the optional character cap, then the optional line range, to the
/// text. Both caps count characters; the character cap keeps at most
/// `max_chars` leading characters, and the line range then keeps whole
/// line segments.
pub fn apply_content_limits(
    content: &str,
    line_range: Option<LineRange>,
    max_chars: Option<usize>,
) -> (r: String)
    ensures
        r@ == apply_content_limits_spec(content@, line_range, max_chars),
{
    let truncated: String = match max_chars {
        Some(limit) => {
            let n = content.unicode_len();
            if limit < n {
                String::from_str(content.substring_char(0, limit))
            } else {
                String::from_str(content)
            }
        },
        None => String::from_str(content),
    };
    proof {
        assert(content@.subrange(0, content@.len() as int) =~= content@);
    }
    match line_range {
        None => truncated,
        Some(range) => {
            let (start, end) = range.bounds();
            match end {
                Some(e) => slice_lines(truncated.as_str(), start, e),
                None => {
                    let t = truncated.as_str();
                    let n = t.unicode_len();
                    proof {
                        lemma_lines_count(t@);
                    }
                    slice_lines(t, start, n)
                },
            }
        },
    }
}

/// Law: with no character cap and no line range, the text is returned
/// unchanged.
pub proof fn lemma_window_identity(s: Seq<char>)
    ensures
        apply_content_limits_spec(s, None, None) == s,
{
}

/// Law: a character cap of zero yields the empty text, whatever the line
/// range.
pub proof fn lemma_window_zero_chars(s: Seq<char>, line_range: Option<LineRange>)
    ensures
        apply_content_limits_spec(s, line_range, Some(0)) == Seq::<char>::empty(),
{
    assert(s.take(0) =~= Seq::<char>::empty());
    if s.len() == 0 {
        assert(s =~= Seq::<char>::empty());
    }
}

/// Law: a zero bound in the line range yields the empty text, whatever
/// the character cap.
pub proof fn lemma_window_zero_line_bound(s: Seq<char>, max_chars: Option<usize>, range: LineRange)
    requires
        range.spec_bounds().0 == 0 || range.spec_bounds().1 == Some(0usize),
    ensures
        apply_content_limits_spec(s, Some(range), max_chars) == Seq::<char>::empty(),
{
}

} // verus!
