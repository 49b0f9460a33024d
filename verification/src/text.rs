//! Verified character-level text processing: line splitting, trimming,
//! ASCII case folding, and the derived note metadata (title, preview,
//! word count, slug) plus substring search.

use vstd::prelude::*;

verus! {

/// Relies on `alloc::string::String::push`: appends one character.
pub assume_specification[ String::push ](s: &mut String, c: char)
    ensures
        final(s)@ == old(s)@.push(c),
;

/// What `str::to_lowercase` returns: the Unicode lowercase folding of a
/// character sequence. A pure function of its argument.
pub uninterp spec fn lower_of(s: Seq<char>) -> Seq<char>;

/// Relies on `str::to_lowercase`: the folded text depends on the characters
/// alone.
#[verifier::external_body]
pub(crate) fn lowercase_str(s: &str) -> (r: String)
    ensures
        r@ == lower_of(s@),
{
    s.to_lowercase()
}

/// How `char::is_whitespace` classifies a character (the Unicode
/// White_Space property). A pure function of its argument.
pub uninterp spec fn is_space_char(c: char) -> bool;

/// Relies on `char::is_whitespace`: the Unicode whitespace classification.
pub assume_specification[ char::is_whitespace ](c: char) -> (r: bool)
    ensures
        r == is_space_char(c),
;

/// How `char::is_alphanumeric` classifies a character (the Unicode letter
/// and number categories). A pure function of its argument.
pub uninterp spec fn is_alnum_char(c: char) -> bool;

/// Relies on `char::is_alphanumeric`: the Unicode letter-or-number
/// classification.
pub assume_specification[ char::is_alphanumeric ](c: char) -> (r: bool)
    ensures
        r == is_alnum_char(c),
;

/// The characters of a string, as a vector.
pub fn chars_of(s: &str) -> (v: Vec<char>)
    ensures
        v@ == s@,
{
    let n = s.unicode_len();
    let mut v: Vec<char> = Vec::new();
    let mut i: usize = 0;
    while i < n
        invariant
            n == s@.len(),
            i <= n,
            v@ == s@.take(i as int),
        decreases n - i,
    {
        v.push(s.get_char(i));
        i = i + 1;
        proof {
            assert(v@ =~= s@.take(i as int));
        }
    }
    proof {
        assert(s@.take(n as int) =~= s@);
    }
    v
}

/// The characters of a vector, as a string.
pub fn string_from_chars(v: &Vec<char>) -> (s: String)
    ensures
        s@ == v@,
{
    let mut s = String::new();
    let mut i: usize = 0;
    while i < v.len()
        invariant
            i <= v@.len(),
            s@ == v@.take(i as int),
        decreases v@.len() - i,
    {
        s.push(v[i]);
        i = i + 1;
        proof {
            assert(s@ =~= v@.take(i as int));
        }
    }
    proof {
        assert(v@.take(v@.len() as int) =~= v@);
    }
    s
}

/// How many leading characters of `s` satisfy `pred`.
pub open spec fn span_len(s: Seq<char>, pred: spec_fn(char) -> bool) -> nat
    decreases s.len(),
{
    if s.len() == 0 {
        0
    } else if pred(s[0]) {
        1 + span_len(s.drop_first(), pred)
    } else {
        0
    }
}

proof fn lemma_span_len(s: Seq<char>, pred: spec_fn(char) -> bool, i: int)
    requires
        0 <= i <= s.len(),
        forall|j: int| 0 <= j < i ==> pred(s[j]),
        i < s.len() ==> !pred(s[i]),
    ensures
        span_len(s, pred) == i,
    decreases i,
{
    if i == 0 {
    } else {
        lemma_span_len(s.drop_first(), pred, i - 1);
    }
}

/// `s` without leading characters satisfying `pred`.
pub open spec fn trim_front(s: Seq<char>, pred: spec_fn(char) -> bool) -> Seq<char> {
    s.skip(span_len(s, pred) as int)
}

/// How many trailing characters of `s` satisfy `pred`.
pub open spec fn rspan_len(s: Seq<char>, pred: spec_fn(char) -> bool) -> nat
    decreases s.len(),
{
    if s.len() == 0 {
        0
    } else if pred(s.last()) {
        1 + rspan_len(s.drop_last(), pred)
    } else {
        0
    }
}

proof fn lemma_rspan_len(s: Seq<char>, pred: spec_fn(char) -> bool, i: int)
    requires
        0 <= i <= s.len(),
        forall|j: int| s.len() - i <= j < s.len() ==> pred(s[j]),
        i < s.len() ==> !pred(s[s.len() - i - 1]),
    ensures
        rspan_len(s, pred) == i,
    decreases i,
{
    if i == 0 {
    } else {
        assert(pred(s.last()));
        lemma_rspan_len(s.drop_last(), pred, i - 1);
    }
}

/// `s` without trailing characters satisfying `pred`.
pub open spec fn trim_back(s: Seq<char>, pred: spec_fn(char) -> bool) -> Seq<char> {
    s.take(s.len() - rspan_len(s, pred))
}

/// `s` without leading or trailing characters satisfying `pred`.
pub open spec fn trim_by(s: Seq<char>, pred: spec_fn(char) -> bool) -> Seq<char> {
    trim_back(trim_front(s, pred), pred)
}

/// `s` without leading or trailing whitespace.
pub open spec fn trimmed(s: Seq<char>) -> Seq<char> {
    trim_by(s, |c: char| is_space_char(c))
}

/// Trim whitespace from both ends of a character vector.
pub fn trim_chars(v: &Vec<char>) -> (r: Vec<char>)
    ensures
        r@ == trimmed(v@),
{
    trim_chars_by(v, false)
}

/// Trim dashes from both ends of a character vector.
pub fn trim_dash_chars(v: &Vec<char>) -> (r: Vec<char>)
    ensures
        r@ == trim_by(v@, |c: char| c == '-'),
{
    trim_chars_by(v, true)
}

/// The trimming predicate: dashes when `dashes` is set, else whitespace.
pub open spec fn trim_pred(dashes: bool) -> spec_fn(char) -> bool {
    if dashes {
        |c: char| c == '-'
    } else {
        |c: char| is_space_char(c)
    }
}

fn trim_test(c: char, dashes: bool) -> (r: bool)
    ensures
        r == trim_pred(dashes)(c),
{
    if dashes {
        c == '-'
    } else {
        c.is_whitespace()
    }
}

fn trim_chars_by(v: &Vec<char>, dashes: bool) -> (r: Vec<char>)
    ensures
        r@ == trim_by(v@, trim_pred(dashes)),
{
    let mut lo: usize = 0;
    while lo < v.len() && trim_test(v[lo], dashes)
        invariant
            lo <= v@.len(),
            forall|j: int| 0 <= j < lo ==> #[trigger] trim_pred(dashes)(v@[j]),
        decreases v@.len() - lo,
    {
        proof {
            assert(trim_pred(dashes)(v@[lo as int]));
        }
        lo = lo + 1;
    }
    proof {
        lemma_span_len(v@, trim_pred(dashes), lo as int);
    }
    let mut hi: usize = v.len();
    while hi > lo && trim_test(v[hi - 1], dashes)
        invariant
            lo <= hi <= v@.len(),
            forall|j: int| hi <= j < v@.len() ==> #[trigger] trim_pred(dashes)(v@[j]),
            span_len(v@, trim_pred(dashes)) == lo,
        decreases hi,
    {
        proof {
            assert(trim_pred(dashes)(v@[hi - 1]));
        }
        hi = hi - 1;
    }
    let ghost fronted = v@.skip(lo as int);
    proof {
        if hi > lo {
            assert(!trim_pred(dashes)(fronted[hi - lo - 1]));
        }
        lemma_rspan_len(fronted, trim_pred(dashes), v@.len() - hi);
    }
    let mut r: Vec<char> = Vec::new();
    let mut i: usize = lo;
    while i < hi
        invariant
            lo <= i <= hi <= v@.len(),
            r@ == v@.subrange(lo as int, i as int),
        decreases hi - i,
    {
        r.push(v[i]);
        i = i + 1;
        proof {
            assert(r@ =~= v@.subrange(lo as int, i as int));
        }
    }
    proof {
        assert(r@ =~= trim_by(v@, trim_pred(dashes)));
    }
    r
}

/// Copy of `v[from..to]`.
pub fn sub_chars(v: &Vec<char>, from: usize, to: usize) -> (r: Vec<char>)
    requires
        from <= to <= v@.len(),
    ensures
        r@ == v@.subrange(from as int, to as int),
{
    let mut r: Vec<char> = Vec::new();
    let mut i: usize = from;
    while i < to
        invariant
            from <= i <= to <= v@.len(),
            r@ == v@.subrange(from as int, i as int),
        decreases to - i,
    {
        r.push(v[i]);
        i = i + 1;
        proof {
            assert(r@ =~= v@.subrange(from as int, i as int));
        }
    }
    r
}

/// Index of the first line feed in `s`, or `s.len()` if there is none.
pub open spec fn line_break(s: Seq<char>) -> nat
    decreases s.len(),
{
    if s.len() == 0 {
        0
    } else if s[0] == '\n' {
        0
    } else {
        1 + line_break(s.drop_first())
    }
}

proof fn lemma_line_break_at(s: Seq<char>, i: int)
    requires
        0 <= i <= s.len(),
        forall|j: int| 0 <= j < i ==> s[j] != '\n',
        i < s.len() ==> s[i] == '\n',
    ensures
        line_break(s) == i,
    decreases i,
{
    if i == 0 {
    } else {
        lemma_line_break_at(s.drop_first(), i - 1);
    }
}

/// One line as `str::lines` yields it: a trailing carriage return that
/// preceded the line feed is stripped.
pub open spec fn strip_cr(line: Seq<char>) -> Seq<char> {
    if line.len() > 0 && line.last() == '\r' {
        line.drop_last()
    } else {
        line
    }
}

/// The lines of a text, split at line feeds, each without its line ending;
/// a final line ending opens no further line.
pub open spec fn lines_of(s: Seq<char>) -> Seq<Seq<char>>
    decreases s.len(),
{
    if s.len() == 0 {
        Seq::empty()
    } else {
        let b = line_break(s);
        let line = strip_cr(s.take(b as int));
        if b >= s.len() {
            seq![line]
        } else {
            seq![line] + lines_of(s.skip(b + 1 as int))
        }
    }
}

/// The views of a vector of character vectors.
pub open spec fn views_of(r: Seq<Vec<char>>) -> Seq<Seq<char>> {
    Seq::new(r.len(), |i: int| r[i]@)
}

proof fn lemma_views_push(s: Seq<Vec<char>>, x: Vec<char>)
    ensures
        views_of(s.push(x)) =~= views_of(s).push(x@),
{
}

/// Split a character vector into its lines.
pub fn split_lines(v: &Vec<char>) -> (r: Vec<Vec<char>>)
    ensures
        views_of(r@) == lines_of(v@),
{
    let mut r: Vec<Vec<char>> = Vec::new();
    let mut start: usize = 0;
    proof {
        assert(v@.skip(0) =~= v@);
        assert(views_of(r@) + lines_of(v@) =~= lines_of(v@));
    }
    while start < v.len()
        invariant
            start <= v@.len(),
            lines_of(v@) == views_of(r@) + lines_of(v@.skip(start as int)),
        decreases v@.len() - start,
    {
        let ghost rest = v@.skip(start as int);
        let mut end: usize = start;
        while end < v.len() && v[end] != '\n'
            invariant
                start <= end <= v@.len(),
                forall|j: int| start <= j < end ==> v@[j] != '\n',
            decreases v@.len() - end,
        {
            end = end + 1;
        }
        proof {
            assert forall|j: int| 0 <= j < end - start implies rest[j] != '\n' by {
                assert(rest[j] == v@[start + j]);
            }
            if (end as int) - (start as int) < rest.len() {
                assert(rest[end - start] == v@[end as int]);
            }
            lemma_line_break_at(rest, end - start);
        }
        let cut = if end > start && v[end - 1] == '\r' {
            end - 1
        } else {
            end
        };
        let line = sub_chars(v, start, cut);
        proof {
            assert(rest.take((end - start) as int) =~= v@.subrange(start as int, end as int));
            assert(line@ =~= strip_cr(rest.take((end - start) as int)));
        }
        let ghost old_rs = r@;
        r.push(line);
        proof {
            lemma_views_push(old_rs, line);
        }
        if end == v.len() {
            proof {
                assert(lines_of(rest) == seq![line@]);
                assert(v@.skip(v@.len() as int) =~= Seq::<char>::empty());
                assert(lines_of(v@) =~= views_of(r@) + lines_of(v@.skip(v@.len() as int)));
            }
            start = end;
        } else {
            proof {
                assert(rest.skip((end - start + 1) as int) =~= v@.skip((end + 1) as int));
                assert(lines_of(rest) == seq![line@] + lines_of(v@.skip((end + 1) as int)));
                assert(lines_of(v@) =~= views_of(r@) + lines_of(v@.skip((end + 1) as int)));
            }
            start = end + 1;
        }
    }
    proof {
        assert(v@.skip(start as int) =~= Seq::<char>::empty());
        assert(lines_of(v@) =~= views_of(r@));
    }
    r
}

/// Number of whitespace-delimited tokens in the rest of a scan whose
/// previous character was whitespace exactly when `in_space` holds.
pub open spec fn word_count_from(s: Seq<char>, in_space: bool) -> nat
    decreases s.len(),
{
    if s.len() == 0 {
        0
    } else {
        (if in_space && !is_space_char(s[0]) {
            1nat
        } else {
            0nat
        }) + word_count_from(s.drop_first(), is_space_char(s[0]))
    }
}

/// Number of whitespace-delimited tokens in `s`.
pub open spec fn word_count_of(s: Seq<char>) -> nat {
    word_count_from(s, true)
}

/// Count the whitespace-delimited tokens of a character vector.
pub fn count_words(v: &Vec<char>) -> (r: usize)
    ensures
        r == word_count_of(v@),
{
    let mut count: usize = 0;
    let mut in_space = true;
    let mut i: usize = 0;
    proof {
        assert(v@.skip(0) =~= v@);
    }
    while i < v.len()
        invariant
            i <= v@.len(),
            count <= i,
            word_count_of(v@) == count + word_count_from(v@.skip(i as int), in_space),
        decreases v@.len() - i,
    {
        let c = v[i];
        let sp = c.is_whitespace();
        proof {
            assert(v@.skip(i as int)[0] == v@[i as int]);
            assert(v@.skip(i as int).drop_first() =~= v@.skip(i + 1));
        }
        if in_space && !sp {
            count = count + 1;
        }
        in_space = sp;
        i = i + 1;
    }
    proof {
        assert(v@.skip(v@.len() as int) =~= Seq::<char>::empty());
    }
    count
}

/// The heading text of a line: what follows `"# "` on a trimmed heading line.
pub open spec fn heading_text(line: Seq<char>) -> Option<Seq<char>> {
    let t = trimmed(line);
    if t.len() >= 2 && t[0] == '#' && t[1] == ' ' {
        Some(t.skip(2))
    } else {
        None
    }
}

/// The text of the first heading line, if any.
pub open spec fn first_heading(ls: Seq<Seq<char>>) -> Option<Seq<char>>
    decreases ls.len(),
{
    if ls.len() == 0 {
        None
    } else if heading_text(ls[0]) is Some {
        heading_text(ls[0])
    } else {
        first_heading(ls.drop_first())
    }
}

/// The display title of a note: the text after the first heading marker,
/// or the given fallback (the file stem) when no line is a heading.
pub open spec fn title_of(content: Seq<char>, fallback: Seq<char>) -> Seq<char> {
    match first_heading(lines_of(content)) {
        Some(t) => t,
        None => fallback,
    }
}

/// Extract the display title from note content.
pub fn extract_title(content: &Vec<char>, fallback: &Vec<char>) -> (r: Vec<char>)
    ensures
        r@ == title_of(content@, fallback@),
{
    let lines = split_lines(content);
    let ghost ls = views_of(lines@);
    let mut i: usize = 0;
    proof {
        assert(ls.skip(0) =~= ls);
    }
    while i < lines.len()
        invariant
            i <= lines@.len(),
            ls == views_of(lines@),
            ls == lines_of(content@),
            first_heading(ls) == first_heading(ls.skip(i as int)),
        decreases lines@.len() - i,
    {
        let t = trim_chars(&lines[i]);
        proof {
            assert(ls.skip(i as int)[0] == ls[i as int]);
            assert(ls[i as int] == lines@[i as int]@);
            assert(ls.skip(i as int).drop_first() =~= ls.skip(i + 1));
        }
        if t.len() >= 2 {
            let c0 = t[0];
            let c1 = t[1];
            if c0 == '#' && c1 == ' ' {
                let r = sub_chars(&t, 2, t.len());
                proof {
                    assert(r@ =~= trimmed(ls[i as int]).skip(2));
                }
                return r;
            }
        }
        i = i + 1;
    }
    proof {
        assert(ls.skip(ls.len() as int) =~= Seq::<Seq<char>>::empty());
    }
    fallback.clone()
}

/// A line that contributes to the preview: not a heading-marked line and not
/// blank after trimming.
pub open spec fn is_preview_line(l: Seq<char>) -> bool {
    !(l.len() > 0 && l[0] == '#') && trimmed(l).len() > 0
}

/// The preview-line predicate, as a value.
pub open spec fn preview_pred() -> spec_fn(Seq<char>) -> bool {
    |l: Seq<char>| is_preview_line(l)
}

/// The first `n` elements of `s`, or all of `s` when it is shorter.
pub open spec fn take_up_to(s: Seq<Seq<char>>, n: int) -> Seq<Seq<char>> {
    if s.len() <= n {
        s
    } else {
        s.take(n)
    }
}

/// Length at which a preview is cut off.
pub const PREVIEW_CUTOFF: usize = 100;

/// The preview of a note: the first two preview lines joined by a space,
/// cut at 100 characters with an ellipsis marker when longer.
pub open spec fn preview_of(content: Seq<char>) -> Seq<char> {
    let kept = take_up_to(lines_of(content).filter(preview_pred()), 2);
    let joined = if kept.len() == 0 {
        Seq::<char>::empty()
    } else if kept.len() == 1 {
        kept[0]
    } else {
        kept[0] + seq![' '] + kept[1]
    };
    if joined.len() > PREVIEW_CUTOFF {
        joined.take(PREVIEW_CUTOFF as int) + seq!['.', '.', '.']
    } else {
        joined
    }
}

/// Extract the preview text from note content.
pub fn extract_preview(content: &Vec<char>) -> (r: Vec<char>)
    ensures
        r@ == preview_of(content@),
{
    let lines = split_lines(content);
    let ghost ls = views_of(lines@);
    let mut picked: Vec<Vec<char>> = Vec::new();
    let mut i: usize = 0;
    proof {
        assert(ls.take(0) =~= Seq::<Seq<char>>::empty());
        Seq::<Seq<char>>::empty().lemma_filter_len(preview_pred());
        assert(Seq::<Seq<char>>::empty().filter(preview_pred()) =~= Seq::<Seq<char>>::empty());
        assert(views_of(picked@) =~= take_up_to(ls.take(0).filter(preview_pred()), 2));
    }
    while i < lines.len()
        invariant
            i <= lines@.len(),
            ls == views_of(lines@),
            ls == lines_of(content@),
            picked@.len() <= 2,
            views_of(picked@) == take_up_to(ls.take(i as int).filter(preview_pred()), 2),
        decreases lines@.len() - i,
    {
        let line = &lines[i];
        proof {
            assert(lines@[i as int]@ == ls[i as int]);
        }
        let keep = if line.len() > 0 {
            let c0 = line[0];
            if c0 == '#' {
                false
            } else {
                let t = trim_chars(line);
                t.len() > 0
            }
        } else {
            let t = trim_chars(line);
            t.len() > 0
        };
        proof {
            assert(keep == preview_pred()(ls[i as int]));
            assert(ls.take(i + 1).drop_last() =~= ls.take(i as int));
            assert(ls.take(i + 1).last() == ls[i as int]);
            reveal(Seq::filter);
            assert(ls.take(i + 1).filter(preview_pred()) == if preview_pred()(ls[i as int]) {
                ls.take(i as int).filter(preview_pred()).push(ls[i as int])
            } else {
                ls.take(i as int).filter(preview_pred())
            });
        }
        if keep && picked.len() < 2 {
            let ghost old_picked = picked@;
            picked.push(line.clone());
            proof {
                lemma_views_push(old_picked, lines@[i as int]);
                assert(views_of(picked@) =~= take_up_to(ls.take(i + 1).filter(preview_pred()), 2));
            }
        } else {
            proof {
                if keep {
                    let f = ls.take(i as int).filter(preview_pred());
                    assert(views_of(picked@).len() == 2);
                    assert(take_up_to(f, 2).len() == 2);
                    assert(take_up_to(f.push(ls[i as int]), 2) =~= take_up_to(f, 2));
                }
            }
        }
        i = i + 1;
    }
    proof {
        assert(ls.take(ls.len() as int) =~= ls);
    }
    let mut joined: Vec<char> = Vec::new();
    if picked.len() >= 1 {
        joined.append(&mut picked[0].clone());
    }
    if picked.len() == 2 {
        joined.push(' ');
        let mut second = picked[1].clone();
        joined.append(&mut second);
    }
    let ghost kept = take_up_to(lines_of(content@).filter(preview_pred()), 2);
    proof {
        if kept.len() == 0 {
            assert(joined@ =~= Seq::<char>::empty());
        } else if kept.len() == 1 {
            assert(joined@ =~= kept[0]);
        } else {
            assert(joined@ =~= kept[0] + seq![' '] + kept[1]);
        }
    }
    if joined.len() > PREVIEW_CUTOFF {
        let mut cut = sub_chars(&joined, 0, PREVIEW_CUTOFF);
        cut.push('.');
        cut.push('.');
        cut.push('.');
        proof {
            assert(cut@ =~= joined@.take(PREVIEW_CUTOFF as int) + seq!['.', '.', '.']);
        }
        cut
    } else {
        joined
    }
}

/// The slug image of one folded character: letters and numbers stay,
/// everything else becomes a dash.
pub open spec fn slug_char(c: char) -> char {
    if is_alnum_char(c) {
        c
    } else {
        '-'
    }
}

/// The slug of a title: the title folded to lowercase, each character kept
/// or replaced by a dash, dashes trimmed from both ends.
pub open spec fn slug_of(s: Seq<char>) -> Seq<char> {
    trim_by(lower_of(s).map_values(|c: char| slug_char(c)), |c: char| c == '-')
}

/// Turn a title into a file-name slug.
pub fn slugify(v: &Vec<char>) -> (r: Vec<char>)
    ensures
        r@ == slug_of(v@),
{
    let text = string_from_chars(v);
    let lowered = lowercase_str(text.as_str());
    let low = chars_of(lowered.as_str());
    let mut mapped: Vec<char> = Vec::new();
    let mut i: usize = 0;
    while i < low.len()
        invariant
            i <= low@.len(),
            mapped@ == low@.take(i as int).map_values(|c: char| slug_char(c)),
        decreases low@.len() - i,
    {
        let c = low[i];
        if c.is_alphanumeric() {
            mapped.push(c);
        } else {
            mapped.push('-');
        }
        i = i + 1;
        proof {
            assert(mapped@ =~= low@.take(i as int).map_values(|c: char| slug_char(c)));
        }
    }
    proof {
        assert(low@.take(low@.len() as int) =~= low@);
    }
    trim_dash_chars(&mapped)
}

/// `s` with a dash inserted after every four characters.
pub open spec fn dash_grouped(s: Seq<char>) -> Seq<char>
    decreases s.len(),
{
    if s.len() <= 4 {
        s
    } else {
        s.take(4) + seq!['-'] + dash_grouped(s.skip(4))
    }
}

/// Format a code into dash-separated four-character groups.
pub fn format_groups(v: &Vec<char>) -> (r: Vec<char>)
    ensures
        r@ == dash_grouped(v@),
{
    let mut r: Vec<char> = Vec::new();
    let mut i: usize = 0;
    proof {
        assert(v@.skip(0) =~= v@);
        assert(r@ + dash_grouped(v@) =~= dash_grouped(v@));
    }
    while v.len() - i > 4
        invariant
            i <= v@.len(),
            dash_grouped(v@) == r@ + dash_grouped(v@.skip(i as int)),
        decreases v@.len() - i,
    {
        let ghost rest = v@.skip(i as int);
        r.push(v[i]);
        r.push(v[i + 1]);
        r.push(v[i + 2]);
        r.push(v[i + 3]);
        r.push('-');
        proof {
            assert(rest.take(4) =~= v@.subrange(i as int, i + 4));
            assert(rest.skip(4) =~= v@.skip(i + 4));
            assert(dash_grouped(rest) == rest.take(4) + seq!['-'] + dash_grouped(rest.skip(4)));
            assert(dash_grouped(v@) =~= r@ + dash_grouped(v@.skip(i + 4)));
        }
        i = i + 4;
    }
    let mut tail = sub_chars(v, i, v.len());
    proof {
        assert(tail@ =~= v@.skip(i as int));
        assert(dash_grouped(v@.skip(i as int)) == v@.skip(i as int));
    }
    r.append(&mut tail);
    r
}

/// Characters kept when normalising recovery-code input: everything but
/// dashes and, when `spaces_too` is set, spaces.
pub open spec fn strip_pred(spaces_too: bool) -> spec_fn(char) -> bool {
    if spaces_too {
        |c: char| c != '-' && c != ' '
    } else {
        |c: char| c != '-'
    }
}

/// Remove every dash — and with `spaces_too`, every space — from `v`.
pub fn strip_separators(v: &Vec<char>, spaces_too: bool) -> (r: Vec<char>)
    ensures
        r@ == v@.filter(strip_pred(spaces_too)),
{
    let mut r: Vec<char> = Vec::new();
    let mut i: usize = 0;
    proof {
        assert(v@.take(0) =~= Seq::<char>::empty());
        reveal(Seq::filter);
        assert(r@ =~= v@.take(0).filter(strip_pred(spaces_too)));
    }
    while i < v.len()
        invariant
            i <= v@.len(),
            r@ == v@.take(i as int).filter(strip_pred(spaces_too)),
        decreases v@.len() - i,
    {
        let c = v[i];
        let keep = if spaces_too {
            c != '-' && c != ' '
        } else {
            c != '-'
        };
        proof {
            assert(keep == strip_pred(spaces_too)(v@[i as int]));
            assert(v@.take(i + 1).drop_last() =~= v@.take(i as int));
            assert(v@.take(i + 1).last() == v@[i as int]);
            reveal(Seq::filter);
            assert(v@.take(i + 1).filter(strip_pred(spaces_too)) == if strip_pred(spaces_too)(
                v@[i as int],
            ) {
                v@.take(i as int).filter(strip_pred(spaces_too)).push(v@[i as int])
            } else {
                v@.take(i as int).filter(strip_pred(spaces_too))
            });
        }
        if keep {
            r.push(c);
        }
        i = i + 1;
    }
    proof {
        assert(v@.take(v@.len() as int) =~= v@);
    }
    r
}

/// Whether `needle` occurs in `hay` starting at index `i`.
pub open spec fn match_at(hay: Seq<char>, needle: Seq<char>, i: int) -> bool {
    0 <= i && i + needle.len() <= hay.len() && hay.subrange(i, i + needle.len()) == needle
}

/// Whether `needle` occurs anywhere in `hay`.
pub open spec fn contains_sub(hay: Seq<char>, needle: Seq<char>) -> bool {
    exists|i: int| match_at(hay, needle, i)
}

/// Substring test on character vectors.
pub fn contains_chars(hay: &Vec<char>, needle: &Vec<char>) -> (r: bool)
    ensures
        r == contains_sub(hay@, needle@),
{
    if needle.len() > hay.len() {
        proof {
            assert forall|i: int| !match_at(hay@, needle@, i) by {}
        }
        return false;
    }
    if needle.len() == 0 {
        proof {
            assert(hay@.subrange(0, 0) =~= needle@);
            assert(match_at(hay@, needle@, 0));
        }
        return true;
    }
    let hay_len: usize = hay.len();
    let last_start: usize = hay_len - needle.len();
    let mut i: usize = 0;
    loop
        invariant
            1 <= needle@.len() <= hay@.len(),
            hay@.len() == hay_len,
            last_start == hay@.len() - needle@.len(),
            i <= last_start + 1,
            forall|k: int| 0 <= k < i ==> !match_at(hay@, needle@, k),
        decreases last_start + 1 - i,
    {
        if i > last_start {
            proof {
                assert forall|k: int| !match_at(hay@, needle@, k) by {
                    if 0 <= k < i {
                    }
                }
            }
            return false;
        }
        let mut j: usize = 0;
        let mut all_eq = true;
        while j < needle.len()
            invariant
                hay@.len() == hay_len,
                i + needle@.len() <= hay@.len(),
                j <= needle@.len(),
                all_eq ==> forall|t: int| 0 <= t < j ==> hay@[i + t] == needle@[t],
                !all_eq ==> !match_at(hay@, needle@, i as int),
            decreases needle@.len() - j,
        {
            if hay[i + j] != needle[j] {
                proof {
                    if match_at(hay@, needle@, i as int) {
                        assert(hay@.subrange(i as int, i + needle@.len())[j as int]
                            == needle@[j as int]);
                    }
                }
                all_eq = false;
            }
            j = j + 1;
        }
        if all_eq {
            proof {
                assert(hay@.subrange(i as int, i + needle@.len()) =~= needle@);
                assert(match_at(hay@, needle@, i as int));
            }
            return true;
        }
        i = i + 1;
    }
}

} // verus!
