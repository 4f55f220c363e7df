//! Plain text as sequences of characters: white space, lines, trimming,
//! searching and decimal numbers.

use vstd::prelude::*;

verus! {

/// The characters with the Unicode property `White_Space`.
pub open spec fn white_space(c: char) -> bool {
    let n = c as u32;
    ||| 0x09 <= n <= 0x0d
    ||| n == 0x20
    ||| n == 0x85
    ||| n == 0xa0
    ||| n == 0x1680
    ||| 0x2000 <= n <= 0x200a
    ||| n == 0x2028
    ||| n == 0x2029
    ||| n == 0x202f
    ||| n == 0x205f
    ||| n == 0x3000
}

/// A text is blank when it holds nothing but white space.
pub open spec fn blank(s: Seq<char>) -> bool {
    forall|i: int| 0 <= i < s.len() ==> white_space(#[trigger] s[i])
}

/// The text without the white space at its end.
pub open spec fn trim_end(s: Seq<char>) -> Seq<char>
    decreases s.len(),
{
    if s.len() > 0 && white_space(s.last()) {
        trim_end(s.drop_last())
    } else {
        s
    }
}

/// Whether a character is white space.
pub fn is_white_space(c: char) -> (r: bool)
    ensures
        r == white_space(c),
{
    let n: u32 = c as u32;
    (0x09 <= n && n <= 0x0d) || n == 0x20 || n == 0x85 || n == 0xa0 || n == 0x1680 || (0x2000 <= n
        && n <= 0x200a) || n == 0x2028 || n == 0x2029 || n == 0x202f || n == 0x205f || n == 0x3000
}

/// Whether a text holds nothing but white space.
pub fn is_blank(s: &Vec<char>) -> (r: bool)
    ensures
        r == blank(s@),
{
    let mut i: usize = 0;
    while i < s.len()
        invariant
            i <= s.len(),
            forall|j: int| 0 <= j < i ==> white_space(#[trigger] s@[j]),
        decreases s.len() - i,
    {
        if !is_white_space(s[i]) {
            return false;
        }
        i += 1;
    }
    true
}

/// The characters of a string, in order.
pub fn chars_of(s: &str) -> (r: Vec<char>)
    ensures
        r@ == s@,
{
    let mut out: Vec<char> = Vec::new();
    for c in it: s.chars()
        invariant
            out@ == it.seq().take(it.index@),
    {
        out.push(c);
    }
    out
}

/// `String::push`: the string grows by the one character.
#[verifier::external_body]
fn push_char(s: &mut String, c: char)
    ensures
        final(s)@ == old(s)@.push(c),
{
    s.push(c)
}

/// The string that holds the given characters.
pub fn string_of(v: &Vec<char>) -> (r: String)
    ensures
        r@ == v@,
{
    let mut out = String::new();
    let mut i: usize = 0;
    while i < v.len()
        invariant
            i <= v.len(),
            out@ == v@.take(i as int),
        decreases v.len() - i,
    {
        push_char(&mut out, v[i]);
        assert(v@.take(i as int).push(v@[i as int]) == v@.take(i + 1));
        i += 1;
    }
    assert(v@.take(v.len() as int) == v@);
    out
}

/// Cuts the white space off the end of a text.
pub fn trim_text_end(s: &mut Vec<char>)
    ensures
        final(s)@ == trim_end(old(s)@),
{
    while s.len() > 0 && is_white_space(s[s.len() - 1])
        invariant
            trim_end(s@) == trim_end(old(s)@),
        decreases s.len(),
    {
        let ghost before = s@;
        s.pop();
        assert(s@ == before.drop_last());
    }
}

/// Where the line that starts at `from` ends: at the first line feed at or
/// after `from`, or at the end of the text.
pub open spec fn line_end(s: Seq<char>, from: int) -> int
    decreases s.len() - from,
{
    if from >= s.len() {
        s.len() as int
    } else if s[from] == '\n' {
        from
    } else {
        line_end(s, from + 1)
    }
}

/// A line that a line feed ended loses one carriage return before it.
pub open spec fn without_carriage_return(line: Seq<char>) -> Seq<char> {
    if line.len() > 0 && line.last() == '\r' {
        line.drop_last()
    } else {
        line
    }
}

/// The lines of the text from `from` on. A line ends at a line feed, or at a
/// carriage return followed by a line feed; neither belongs to the line. What
/// follows the last line feed is a line unless it is empty.
pub open spec fn lines_from(s: Seq<char>, from: int) -> Seq<Seq<char>>
    decreases s.len() - from,
{
    if from < 0 || from >= s.len() {
        Seq::empty()
    } else {
        let end = line_end(s, from);
        if from <= end < s.len() {
            seq![without_carriage_return(s.subrange(from, end))] + lines_from(s, end + 1)
        } else {
            seq![s.subrange(from, s.len() as int)]
        }
    }
}

/// A text holds no line feed: it is one line at most.
pub open spec fn flat(s: Seq<char>) -> bool {
    forall|i: int| 0 <= i < s.len() ==> #[trigger] s[i] != '\n'
}

/// Every line of a text ends with a line feed.
pub open spec fn ended(s: Seq<char>) -> bool {
    s.len() == 0 || s.last() == '\n'
}

/// The text with a line feed at its end: its own, or one more.
pub open spec fn closed(s: Seq<char>) -> Seq<char> {
    if s.len() > 0 && s.last() == '\n' {
        s
    } else {
        s.push('\n')
    }
}

/// No line of a text is blank.
pub open spec fn no_blank_line(s: Seq<char>) -> bool {
    no_blank_from(s, 0)
}

/// No line of a text from `from` on is blank.
pub open spec fn no_blank_from(s: Seq<char>, from: int) -> bool {
    forall|k: int| 0 <= k < lines_from(s, from).len() ==> !blank(#[trigger] lines_from(s, from)[k])
}

/// The lines of a text.
pub open spec fn lines_of(s: Seq<char>) -> Seq<Seq<char>> {
    lines_from(s, 0)
}

/// The views of the texts in a list.
pub open spec fn texts(v: Seq<Vec<char>>) -> Seq<Seq<char>> {
    v.map_values(|t: Vec<char>| t@)
}

/// A copy of the characters from `from` up to `to`.
pub fn slice_text(s: &Vec<char>, from: usize, to: usize) -> (r: Vec<char>)
    requires
        from <= to <= s.len(),
    ensures
        r@ == s@.subrange(from as int, to as int),
{
    let mut out: Vec<char> = Vec::new();
    let mut i: usize = from;
    while i < to
        invariant
            from <= i <= to <= s.len(),
            out@ == s@.subrange(from as int, i as int),
        decreases to - i,
    {
        out.push(s[i]);
        assert(s@.subrange(from as int, i as int).push(s@[i as int]) == s@.subrange(
            from as int,
            i + 1,
        ));
        i += 1;
    }
    out
}

/// Splits a text into its lines.
pub fn split_lines(s: &Vec<char>) -> (r: Vec<Vec<char>>)
    ensures
        texts(r@) == lines_of(s@),
{
    let mut out: Vec<Vec<char>> = Vec::new();
    let mut start: usize = 0;
    while start < s.len()
        invariant
            start <= s.len(),
            lines_of(s@) == texts(out@) + lines_from(s@, start as int),
        decreases s.len() - start,
    {
        let mut end: usize = start;
        while end < s.len() && s[end] != '\n'
            invariant
                start <= end <= s.len(),
                line_end(s@, start as int) == line_end(s@, end as int),
            decreases s.len() - end,
        {
            end += 1;
        }
        let ghost before = texts(out@);
        if end < s.len() {
            let stop: usize = if end > start && s[end - 1] == '\r' {
                end - 1
            } else {
                end
            };
            let line = slice_text(s, start, stop);
            assert(line@ == without_carriage_return(s@.subrange(start as int, end as int)));
            out.push(line);
            assert(texts(out@) == before.push(line@));
            assert(lines_of(s@) == texts(out@) + lines_from(s@, end + 1));
            start = end + 1;
        } else {
            let line = slice_text(s, start, end);
            out.push(line);
            assert(texts(out@) == before.push(line@));
            assert(lines_from(s@, s.len() as int) == Seq::<Seq<char>>::empty());
            assert(lines_of(s@) == texts(out@) + lines_from(s@, s.len() as int));
            start = end;
        }
    }
    assert(lines_of(s@) == texts(out@));
    out
}

/// The first place at or after `from` where `a` stands directly before `b`,
/// or the length of the text where there is none.
pub open spec fn pair_at_or_after(s: Seq<char>, a: char, b: char, from: int) -> int
    decreases s.len() - from,
{
    if from + 1 >= s.len() {
        s.len() as int
    } else if s[from] == a && s[from + 1] == b {
        from
    } else {
        pair_at_or_after(s, a, b, from + 1)
    }
}

/// The place of the first `a` directly before a `b`, if there is one.
pub open spec fn first_pair(s: Seq<char>, a: char, b: char) -> Option<int> {
    let at = pair_at_or_after(s, a, b, 0);
    if at < s.len() {
        Some(at)
    } else {
        None
    }
}

/// The place found holds the pair, and no place before it does.
pub proof fn lemma_pair_at_or_after(s: Seq<char>, a: char, b: char, from: int)
    requires
        0 <= from,
    ensures
        ({
            let at = pair_at_or_after(s, a, b, from);
            &&& at == s.len() || (from <= at && at + 1 < s.len() && s[at] == a && s[at + 1] == b)
            &&& forall|k: int|
                from <= k < at && k + 1 < s.len() ==> !(#[trigger] s[k] == a && s[k + 1] == b)
        }),
    decreases s.len() - from,
{
    if from + 1 < s.len() && !(s[from] == a && s[from + 1] == b) {
        lemma_pair_at_or_after(s, a, b, from + 1);
    }
}

/// Finds the first `a` at or after `from` that stands directly before a `b`.
pub fn find_pair_from(s: &Vec<char>, a: char, b: char, from: usize) -> (r: Option<usize>)
    ensures
        r is Some == (pair_at_or_after(s@, a, b, from as int) < s.len()),
        r is Some ==> r->0 as int == pair_at_or_after(s@, a, b, from as int) && from <= r->0
            && r->0 + 1 < s.len(),
{
    proof {
        lemma_pair_at_or_after(s@, a, b, from as int);
    }
    let mut i: usize = from;
    while i < s.len() && s.len() - i >= 2
        invariant
            from <= i,
            pair_at_or_after(s@, a, b, from as int) == pair_at_or_after(s@, a, b, i as int),
        decreases s.len() - i,
    {
        if s[i] == a && s[i + 1] == b {
            return Some(i);
        }
        i += 1;
    }
    None
}

/// The character of a decimal digit.
pub open spec fn digit(d: nat) -> char {
    if d == 0 {
        '0'
    } else if d == 1 {
        '1'
    } else if d == 2 {
        '2'
    } else if d == 3 {
        '3'
    } else if d == 4 {
        '4'
    } else if d == 5 {
        '5'
    } else if d == 6 {
        '6'
    } else if d == 7 {
        '7'
    } else if d == 8 {
        '8'
    } else {
        '9'
    }
}

/// A number in decimal digits, without leading zeros.
pub open spec fn decimal(n: nat) -> Seq<char>
    decreases n,
{
    if n < 10 {
        seq![digit(n)]
    } else {
        decimal(n / 10).push(digit(n % 10))
    }
}

fn digit_char(d: u128) -> (c: char)
    requires
        d < 10,
    ensures
        c == digit(d as nat),
{
    if d == 0 {
        '0'
    } else if d == 1 {
        '1'
    } else if d == 2 {
        '2'
    } else if d == 3 {
        '3'
    } else if d == 4 {
        '4'
    } else if d == 5 {
        '5'
    } else if d == 6 {
        '6'
    } else if d == 7 {
        '7'
    } else if d == 8 {
        '8'
    } else {
        '9'
    }
}

/// Writes a number in decimal digits behind a text.
pub fn push_decimal(out: &mut Vec<char>, n: u128)
    ensures
        final(out)@ == old(out)@ + decimal(n as nat),
    decreases n,
{
    if n >= 10 {
        push_decimal(out, n / 10);
    }
    out.push(digit_char(n % 10));
}

/// Writes one text behind another.
pub fn push_text(out: &mut Vec<char>, s: &Vec<char>)
    ensures
        final(out)@ == old(out)@ + s@,
{
    let mut i: usize = 0;
    while i < s.len()
        invariant
            i <= s.len(),
            out@ == old(out)@ + s@.take(i as int),
        decreases s.len() - i,
    {
        out.push(s[i]);
        assert(s@.take(i as int).push(s@[i as int]) == s@.take(i + 1));
        i += 1;
    }
    assert(s@.take(s.len() as int) == s@);
}

/// Whether two texts hold the same characters.
pub fn same_text(a: &Vec<char>, b: &Vec<char>) -> (r: bool)
    ensures
        r == (a@ == b@),
{
    if a.len() != b.len() {
        return false;
    }
    let mut i: usize = 0;
    while i < a.len()
        invariant
            i <= a.len(),
            a.len() == b.len(),
            forall|j: int| 0 <= j < i ==> a@[j] == b@[j],
        decreases a.len() - i,
    {
        if a[i] != b[i] {
            return false;
        }
        i += 1;
    }
    assert(a@ =~= b@);
    true
}

/// A line ends at the first line feed at or after its start, or at the end
/// of the text.
pub proof fn lemma_line_end(s: Seq<char>, from: int)
    requires
        0 <= from <= s.len(),
    ensures
        from <= line_end(s, from) <= s.len(),
        line_end(s, from) < s.len() ==> s[line_end(s, from)] == '\n',
        forall|k: int| from <= k < line_end(s, from) ==> #[trigger] s[k] != '\n',
    decreases s.len() - from,
{
    if from < s.len() && s[from] != '\n' {
        lemma_line_end(s, from + 1);
    }
}

/// The place of the first line feed is the end of the line.
pub proof fn lemma_line_ends_at(s: Seq<char>, from: int, end: int)
    requires
        0 <= from <= end <= s.len(),
        forall|k: int| from <= k < end ==> #[trigger] s[k] != '\n',
        end == s.len() || s[end] == '\n',
    ensures
        line_end(s, from) == end,
    decreases end - from,
{
    if from < end {
        assert(s[from] != '\n');
        lemma_line_ends_at(s, from + 1, end);
    }
}

/// The lines of a text behind another are those of the text itself.
pub proof fn lemma_lines_behind(a: Seq<char>, b: Seq<char>, k: int)
    requires
        0 <= k,
    ensures
        lines_from(a + b, a.len() + k) == lines_from(b, k),
    decreases b.len() - k,
{
    let s = a + b;
    let from = a.len() + k;
    if k < b.len() {
        lemma_line_end(b, k);
        let end = line_end(b, k);
        assert forall|j: int| from <= j < a.len() + end implies #[trigger] s[j] != '\n' by {
            assert(s[j] == b[j - a.len()]);
        }
        if end < b.len() {
            assert(s[a.len() + end] == b[end]);
        }
        lemma_line_ends_at(s, from, a.len() + end);
        if end < b.len() {
            assert(s.subrange(from, a.len() + end) =~= b.subrange(k, end));
            lemma_lines_behind(a, b, end + 1);
        } else {
            assert(s.subrange(from, s.len() as int) =~= b.subrange(k, b.len() as int));
        }
    }
}

/// The lines of two texts, the first of which ends with a line feed, are
/// the lines of the one and then those of the other.
pub proof fn lemma_lines_of_two(a: Seq<char>, b: Seq<char>, from: int)
    requires
        ended(a),
        0 <= from <= a.len(),
    ensures
        lines_from(a + b, from) == lines_from(a, from) + lines_of(b),
    decreases a.len() - from,
{
    let s = a + b;
    if from == a.len() {
        lemma_lines_behind(a, b, 0);
        assert(Seq::<Seq<char>>::empty() + lines_of(b) =~= lines_of(b));
    } else {
        lemma_line_end(a, from);
        let end = line_end(a, from);
        if end == a.len() {
            assert(a[a.len() - 1] != '\n');
        }
        assert forall|j: int| from <= j < end implies #[trigger] s[j] != '\n' by {
            assert(s[j] == a[j]);
        }
        assert(s[end] == a[end]);
        lemma_line_ends_at(s, from, end);
        assert(s.subrange(from, end) =~= a.subrange(from, end));
        lemma_lines_of_two(a, b, end + 1);
        let line = without_carriage_return(a.subrange(from, end));
        assert(seq![line] + (lines_from(a, end + 1) + lines_of(b)) =~= (seq![line] + lines_from(
            a,
            end + 1,
        )) + lines_of(b));
    }
}

/// One line and its line feed are one line.
pub proof fn lemma_lines_of_one(t: Seq<char>)
    requires
        flat(t),
    ensures
        lines_of(t.push('\n')) == seq![without_carriage_return(t)],
{
    let s = t.push('\n');
    assert forall|j: int| 0 <= j < t.len() implies #[trigger] s[j] != '\n' by {
        assert(s[j] == t[j]);
    }
    lemma_line_ends_at(s, 0, t.len() as int);
    assert(s.subrange(0, t.len() as int) =~= t);
    assert(lines_from(s, (t.len() + 1) as int) =~= Seq::<Seq<char>>::empty());
    assert(seq![without_carriage_return(t)] + Seq::<Seq<char>>::empty() =~= seq![
        without_carriage_return(t),
    ]);
}

/// A line feed behind a text that ends in the middle of a line adds no
/// line.
pub proof fn lemma_lines_of_closed(s: Seq<char>, from: int)
    requires
        0 <= from < s.len(),
        s.last() != '\n',
        s.last() != '\r',
    ensures
        lines_from(s.push('\n'), from) == lines_from(s, from),
    decreases s.len() - from,
{
    let longer = s.push('\n');
    lemma_line_end(s, from);
    let end = line_end(s, from);
    assert forall|j: int| from <= j < end implies #[trigger] longer[j] != '\n' by {
        assert(longer[j] == s[j]);
    }
    if end < s.len() {
        assert(longer[end] == s[end]);
    }
    lemma_line_ends_at(longer, from, end);
    assert(longer.subrange(from, end) =~= s.subrange(from, end));
    if end < s.len() {
        lemma_lines_of_closed(s, end + 1);
    } else {
        assert(lines_from(longer, end + 1) =~= Seq::<Seq<char>>::empty());
        assert(s.subrange(from, end).last() == s.last());
        assert(seq![s.subrange(from, end)] + Seq::<Seq<char>>::empty() =~= seq![
            s.subrange(from, end),
        ]);
    }
}

/// What trimming leaves is the start of the text, up to its last character
/// that is no white space.
pub proof fn lemma_trim_end(s: Seq<char>)
    ensures
        trim_end(s).len() <= s.len(),
        trim_end(s) == s.take(trim_end(s).len() as int),
        trim_end(s).len() > 0 ==> !white_space(trim_end(s).last()),
        forall|j: int| trim_end(s).len() <= j < s.len() ==> white_space(#[trigger] s[j]),
    decreases s.len(),
{
    if s.len() > 0 && white_space(s.last()) {
        lemma_trim_end(s.drop_last());
        let n = trim_end(s).len() as int;
        assert(s.drop_last().take(n) =~= s.take(n));
        assert forall|j: int| n <= j < s.len() implies white_space(#[trigger] s[j]) by {
            if j < s.len() - 1 {
                assert(s.drop_last()[j] == s[j]);
            }
        }
    } else {
        assert(s.take(s.len() as int) =~= s);
    }
}

/// A text with a character that is no white space is no blank text.
pub proof fn lemma_not_blank(s: Seq<char>, at: int)
    requires
        0 <= at < s.len(),
        !white_space(s[at]),
    ensures
        !blank(s),
        !blank(without_carriage_return(s)),
{
    if s.last() == '\r' {
        assert(at < s.len() - 1);
        assert(s.drop_last()[at] == s[at]);
    }
}

/// Cutting a text off behind a character that is no white space leaves no
/// blank line where none was.
pub proof fn lemma_no_blank_take(s: Seq<char>, m: int, from: int)
    requires
        0 <= from < m <= s.len(),
        !white_space(s[m - 1]),
        no_blank_from(s, from),
    ensures
        no_blank_from(s.take(m), from),
    decreases m - from,
{
    let t = s.take(m);
    lemma_line_end(s, from);
    let end = line_end(s, from);
    if end < m {
        assert forall|j: int| from <= j < end implies #[trigger] t[j] != '\n' by {
            assert(t[j] == s[j]);
        }
        assert(t[end] == s[end]);
        lemma_line_ends_at(t, from, end);
        assert(t.subrange(from, end) =~= s.subrange(from, end));
        assert(end != m - 1);
        let line = without_carriage_return(s.subrange(from, end));
        let rest = lines_from(s, end + 1);
        assert(lines_from(s, from) == seq![line] + rest);
        assert(lines_from(s, from)[0] == line);
        assert forall|k: int| 0 <= k < rest.len() implies !blank(#[trigger] rest[k]) by {
            assert(lines_from(s, from)[k + 1] == rest[k]);
        }
        lemma_no_blank_take(s, m, end + 1);
        let cut = lines_from(t, end + 1);
        assert forall|k: int| 0 <= k < lines_from(t, from).len() implies !blank(
            #[trigger] lines_from(t, from)[k],
        ) by {
            if k > 0 {
                assert(lines_from(t, from)[k] == cut[k - 1]);
            }
        }
    } else {
        assert forall|j: int| from <= j < m implies #[trigger] t[j] != '\n' by {
            assert(t[j] == s[j]);
        }
        lemma_line_ends_at(t, from, m);
        let line = t.subrange(from, m);
        assert(line[m - 1 - from] == s[m - 1]);
        lemma_not_blank(line, m - 1 - from);
        assert(lines_from(t, from) =~= seq![line]);
    }
}

/// Trimming the end of a text whose lines all end with a line feed and are
/// not blank leaves a text with no blank line, which ends with a character
/// that is no white space.
pub proof fn lemma_trimmed_lines(s: Seq<char>)
    requires
        s.len() > 0,
        ended(s),
        no_blank_line(s),
    ensures
        trim_end(s).len() > 0,
        !white_space(trim_end(s).last()),
        no_blank_line(trim_end(s)),
{
    lemma_trim_end(s);
    lemma_line_end(s, 0);
    let end = line_end(s, 0);
    assert(end < s.len()) by {
        if end == s.len() {
            assert(s[s.len() - 1] != '\n');
        }
    }
    let first = without_carriage_return(s.subrange(0, end));
    assert(lines_from(s, 0)[0] == first);
    assert(!blank(first));
    let at = choose|at: int| 0 <= at < first.len() && !white_space(#[trigger] first[at]);
    assert(first[at] == s[at]);
    let m = trim_end(s).len() as int;
    assert(m > at);
    assert(trim_end(s).last() == s[m - 1]);
    lemma_no_blank_take(s, m, 0);
}

/// The digits of a number hold no line feed and no white space.
pub proof fn lemma_decimal_is_flat(n: nat)
    ensures
        flat(decimal(n)),
        decimal(n).len() > 0,
        forall|i: int| 0 <= i < decimal(n).len() ==> !white_space(#[trigger] decimal(n)[i]),
    decreases n,
{
    if n >= 10 {
        lemma_decimal_is_flat(n / 10);
    }
}

/// No line holds a line feed.
pub proof fn lemma_lines_are_flat(s: Seq<char>, from: int)
    requires
        0 <= from,
    ensures
        forall|k: int| 0 <= k < lines_from(s, from).len() ==> flat(#[trigger] lines_from(s, from)[k]),
    decreases s.len() - from,
{
    if from < s.len() {
        lemma_line_end(s, from);
        let end = line_end(s, from);
        let part = s.subrange(from, end);
        assert forall|i: int| 0 <= i < part.len() implies #[trigger] part[i] != '\n' by {
            assert(part[i] == s[from + i]);
        }
        if end < s.len() {
            let line = without_carriage_return(part);
            assert(flat(line)) by {
                assert forall|i: int| 0 <= i < line.len() implies #[trigger] line[i] != '\n' by {
                    assert(line[i] == part[i]);
                }
            }
            lemma_lines_are_flat(s, end + 1);
            let rest = lines_from(s, end + 1);
            assert forall|k: int| 0 <= k < lines_from(s, from).len() implies flat(
                #[trigger] lines_from(s, from)[k],
            ) by {
                if k > 0 {
                    assert(lines_from(s, from)[k] == rest[k - 1]);
                }
            }
        }
    }
}

/// Whether a text holds no line feed.
pub fn is_flat(s: &Vec<char>) -> (r: bool)
    ensures
        r == flat(s@),
{
    let mut i: usize = 0;
    while i < s.len()
        invariant
            i <= s.len(),
            forall|j: int| 0 <= j < i ==> #[trigger] s@[j] != '\n',
        decreases s.len() - i,
    {
        if s[i] == '\n' {
            return false;
        }
        i += 1;
    }
    true
}

} // verus!
