//! Lists of dumps and of the files in a dump, as text with one item per line.
use vstd::prelude::*;

use crate::outside;
use crate::text;

verus! {

/// The place of the first line feed, or the length where there is none.
pub open spec fn line_end(s: Seq<char>) -> nat
    decreases s.len(),
{
    if s.len() == 0 || s[0] == '\n' {
        0
    } else {
        1 + line_end(s.drop_first())
    }
}

/// A line without the carriage return before its line feed.
pub open spec fn chomped(line: Seq<char>) -> Seq<char> {
    if line.len() > 0 && line.last() == '\r' {
        line.drop_last()
    } else {
        line
    }
}

/// The lines of a text. Each ends with a line feed, or a carriage return and a line feed; the
/// last one may have no end.
pub open spec fn lines(s: Seq<char>) -> Seq<Seq<char>>
    decreases s.len(),
{
    if s.len() == 0 {
        Seq::empty()
    } else if line_end(s) >= s.len() {
        seq![s]
    } else {
        seq![chomped(s.subrange(0, line_end(s) as int))] + lines(
            s.subrange(line_end(s) as int + 1, s.len() as int),
        )
    }
}

/// The characters that Unicode counts as white space.
pub open spec fn is_space(c: char) -> bool {
    ||| 0x09 <= c as int <= 0x0d
    ||| c as int == 0x20
    ||| c as int == 0x85
    ||| c as int == 0xa0
    ||| c as int == 0x1680
    ||| 0x2000 <= c as int <= 0x200a
    ||| c as int == 0x2028
    ||| c as int == 0x2029
    ||| c as int == 0x202f
    ||| c as int == 0x205f
    ||| c as int == 0x3000
}

/// A line without the white space before it.
pub open spec fn trimmed_start(s: Seq<char>) -> Seq<char>
    decreases s.len(),
{
    if s.len() > 0 && is_space(s[0]) {
        trimmed_start(s.drop_first())
    } else {
        s
    }
}

/// A line without the white space after it.
pub open spec fn trimmed_end(s: Seq<char>) -> Seq<char>
    decreases s.len(),
{
    if s.len() > 0 && is_space(s.last()) {
        trimmed_end(s.drop_last())
    } else {
        s
    }
}

/// A line without the white space around it.
pub open spec fn trimmed(s: Seq<char>) -> Seq<char> {
    trimmed_end(trimmed_start(s))
}

/// The lines that hold more than white space, trimmed.
pub open spec fn items(list: Seq<Seq<char>>) -> Seq<Seq<char>>
    decreases list.len(),
{
    if list.len() == 0 {
        Seq::empty()
    } else if trimmed(list[0]).len() == 0 {
        items(list.drop_first())
    } else {
        seq![trimmed(list[0])] + items(list.drop_first())
    }
}

/// The dumps of a list, the last line first.
pub open spec fn dump_queue(list: Seq<char>) -> Seq<Seq<char>> {
    items(lines(list)).reverse()
}

/// Whether Unicode counts the character as white space.
pub fn white_space(c: char) -> (r: bool)
    ensures
        r == is_space(c),
{
    let n = c as u32;
    (0x09 <= n && n <= 0x0d) || n == 0x20 || n == 0x85 || n == 0xa0 || n == 0x1680 || (0x2000 <= n
        && n <= 0x200a) || n == 0x2028 || n == 0x2029 || n == 0x202f || n == 0x205f || n == 0x3000
}

fn to_chars(s: &str) -> (chars: Vec<char>)
    ensures
        chars@ == s@,
{
    let mut chars: Vec<char> = Vec::new();
    for c in it: s.chars()
        invariant
            it.seq() == s@,
            chars@ == s@.subrange(0, it.index() as int),
    {
        chars.push(c);
        assert(chars@ =~= s@.subrange(0, it.index() + 1));
    }
    assert(s@.subrange(0, s@.len() as int) =~= s@);
    chars
}

proof fn lemma_line_end(s: Seq<char>, k: nat)
    requires
        k <= s.len(),
        forall|i: int| 0 <= i < k ==> s[i] != '\n',
        k < s.len() ==> s[k as int] == '\n',
    ensures
        line_end(s) == k,
    decreases k,
{
    if k > 0 {
        lemma_line_end(s.drop_first(), (k - 1) as nat);
    }
}

fn find_line_end(chars: &Vec<char>, from: usize) -> (end: usize)
    requires
        from <= chars@.len(),
    ensures
        from <= end <= chars@.len(),
        end - from == line_end(chars@.subrange(from as int, chars@.len() as int)),
{
    let ghost rest = chars@.subrange(from as int, chars@.len() as int);
    let mut end = from;
    while end < chars.len() && chars[end] != '\n'
        invariant
            from <= end <= chars@.len(),
            rest == chars@.subrange(from as int, chars@.len() as int),
            forall|i: int| 0 <= i < end - from ==> rest[i] != '\n',
        decreases chars@.len() - end,
    {
        assert(rest[end - from] == chars@[end as int]);
        end = end + 1;
    }
    proof {
        if end < chars@.len() {
            assert(rest[end - from] == chars@[end as int]);
        }
        lemma_line_end(rest, (end - from) as nat);
    }
    end
}

fn find_trimmed(chars: &Vec<char>, from: usize, to: usize) -> (span: (usize, usize))
    requires
        from <= to <= chars@.len(),
    ensures
        from <= span.0 <= span.1 <= to,
        chars@.subrange(span.0 as int, span.1 as int) == trimmed(
            chars@.subrange(from as int, to as int),
        ),
{
    let mut a = from;
    while a < to && white_space(chars[a])
        invariant
            from <= a <= to <= chars@.len(),
            trimmed_start(chars@.subrange(a as int, to as int)) == trimmed_start(
                chars@.subrange(from as int, to as int),
            ),
        decreases to - a,
    {
        assert(chars@.subrange(a as int, to as int).drop_first() =~= chars@.subrange(
            a + 1,
            to as int,
        ));
        a = a + 1;
    }
    let ghost started = chars@.subrange(a as int, to as int);
    assert(started == trimmed_start(chars@.subrange(from as int, to as int)));
    let mut b = to;
    while b > a && white_space(chars[b - 1])
        invariant
            a <= b <= to <= chars@.len(),
            trimmed_end(chars@.subrange(a as int, b as int)) == trimmed_end(started),
        decreases b,
    {
        assert(chars@.subrange(a as int, b as int).drop_last() =~= chars@.subrange(
            a as int,
            b - 1,
        ));
        b = b - 1;
    }
    (a, b)
}

/// Reads a list of dumps: white space around the names and blank lines do not count, and the
/// dump that stands last comes first.
pub fn parse_dump_list(list: &str) -> (queue: Vec<String>)
    ensures
        text::texts(queue@) == dump_queue(list@),
{
    let chars = to_chars(list);
    let mut found: Vec<String> = Vec::new();
    let mut at: usize = 0;
    proof {
        assert(chars@.subrange(0, chars@.len() as int) =~= chars@);
        assert(text::texts(found@) + items(lines(chars@)) =~= items(lines(chars@)));
    }
    while at < chars.len()
        invariant
            chars@ == list@,
            at <= chars@.len(),
            text::texts(found@) + items(
                lines(chars@.subrange(at as int, chars@.len() as int)),
            ) == items(lines(chars@)),
        decreases chars@.len() - at,
    {
        let ghost rest = chars@.subrange(at as int, chars@.len() as int);
        let end = find_line_end(&chars, at);
        let stop: usize = if end < chars.len() && end > at && chars[end - 1] == '\r' {
            end - 1
        } else {
            end
        };
        let (a, b) = find_trimmed(&chars, at, stop);
        let next: usize = if end < chars.len() {
            end + 1
        } else {
            end
        };
        let ghost line = chars@.subrange(at as int, stop as int);
        let ghost tail = lines(chars@.subrange(next as int, chars@.len() as int));
        proof {
            if end < chars@.len() {
                assert(rest.subrange(0, end - at) =~= chars@.subrange(at as int, end as int));
                assert(chomped(rest.subrange(0, end - at)) =~= line);
                assert(rest.subrange(end - at + 1, rest.len() as int) =~= chars@.subrange(
                    next as int,
                    chars@.len() as int,
                ));
            } else {
                assert(rest =~= line);
                assert(tail =~= Seq::empty());
            }
            assert(lines(rest) =~= seq![line] + tail);
            assert(lines(rest).drop_first() =~= tail);
        }
        if a < b {
            let ghost before = found@;
            found.push(list.substring_char(a, b).to_owned());
            assert(text::texts(found@) =~= text::texts(before).push(trimmed(line)));
            assert(text::texts(found@) + items(tail) =~= text::texts(before) + (seq![trimmed(line)]
                + items(tail)));
        }
        at = next;
    }
    assert(text::texts(found@) =~= items(lines(list@))) by {
        assert(lines(chars@.subrange(at as int, chars@.len() as int)) =~= Seq::empty());
    }
    let ghost ordered = text::texts(found@);
    let mut queue: Vec<String> = Vec::new();
    while found.len() > 0
        invariant
            text::texts(queue@) + text::texts(found@).reverse() == ordered.reverse(),
        decreases found@.len(),
    {
        let ghost held = text::texts(found@);
        let ghost before = text::texts(queue@);
        let last = found.pop().unwrap();
        queue.push(last);
        assert(text::texts(queue@) =~= before.push(held.last()));
        assert(text::texts(found@) =~= held.drop_last());
        assert(text::texts(queue@) + text::texts(found@).reverse() =~= before + held.reverse());
    }
    assert(text::texts(queue@) =~= ordered.reverse());
    queue
}

/// How many line feeds a text holds.
spec fn feeds(s: Seq<char>) -> nat
    decreases s.len(),
{
    if s.len() == 0 {
        0
    } else {
        feeds(s.drop_last()) + if s.last() == '\n' {
            1nat
        } else {
            0nat
        }
    }
}

proof fn lemma_feeds_concat(a: Seq<char>, b: Seq<char>)
    ensures
        feeds(a + b) == feeds(a) + feeds(b),
    decreases b.len(),
{
    if b.len() == 0 {
        assert(a + b =~= a);
    } else {
        lemma_feeds_concat(a, b.drop_last());
        assert((a + b).drop_last() =~= a + b.drop_last());
    }
}

proof fn lemma_no_feeds(s: Seq<char>)
    requires
        forall|i: int| 0 <= i < s.len() ==> s[i] != '\n',
    ensures
        feeds(s) == 0,
    decreases s.len(),
{
    if s.len() > 0 {
        lemma_no_feeds(s.drop_last());
    }
}

proof fn lemma_line_end_bounds(s: Seq<char>)
    ensures
        line_end(s) <= s.len(),
        forall|i: int| 0 <= i < line_end(s) ==> s[i] != '\n',
        line_end(s) < s.len() ==> s[line_end(s) as int] == '\n',
    decreases s.len(),
{
    if s.len() > 0 && s[0] != '\n' {
        let t = s.drop_first();
        lemma_line_end_bounds(t);
        assert forall|i: int| 0 <= i < line_end(s) implies s[i] != '\n' by {
            if i > 0 {
                assert(s[i] == t[i - 1]);
            }
        }
        if line_end(s) < s.len() {
            assert(s[line_end(s) as int] == t[line_end(t) as int]);
        }
    }
}

proof fn lemma_line_count(s: Seq<char>)
    ensures
        lines(s).len() == feeds(s) + if s.len() > 0 && s.last() != '\n' {
            1nat
        } else {
            0nat
        },
    decreases s.len(),
{
    if s.len() > 0 {
        lemma_line_end_bounds(s);
        let k = line_end(s) as int;
        if k >= s.len() {
            lemma_no_feeds(s);
        } else {
            let first = s.subrange(0, k);
            let rest = s.subrange(k + 1, s.len() as int);
            lemma_line_count(rest);
            lemma_no_feeds(first);
            assert(feeds(first.push('\n')) == 1) by {
                assert(first.push('\n').drop_last() =~= first);
            }
            lemma_feeds_concat(first.push('\n'), rest);
            assert(first.push('\n') + rest =~= s);
            if rest.len() > 0 {
                assert(rest.last() == s.last());
            }
        }
    }
}

/// The number of lines, in 32 bits.
pub fn count_lines(s: &str) -> (n: i32)
    ensures
        n == lines(s@).len() as i32,
        lines(s@).len() <= i32::MAX ==> n as int == lines(s@).len(),
{
    let len = s.unicode_len();
    let mut n: usize = 0;
    let mut open = false;
    assert(s@.subrange(0, 0) =~= Seq::empty());
    for c in it: s.chars()
        invariant
            it.seq() == s@,
            len == s@.len(),
            n == feeds(s@.subrange(0, it.index() as int)),
            n + (if open {
                1int
            } else {
                0int
            }) <= it.index(),
            open == (it.index() > 0 && s@[it.index() - 1] != '\n'),
    {
        assert(s@.subrange(0, it.index() + 1).drop_last() =~= s@.subrange(0, it.index() as int));
        if c == '\n' {
            n = n + 1;
            open = false;
        } else {
            open = true;
        }
    }
    proof {
        assert(s@.subrange(0, s@.len() as int) =~= s@);
        lemma_line_count(s@);
    }
    if open {
        n = n + 1;
    }
    n as i32
}

/// The number of files that a file list tells, zero where there is none to read.
pub open spec fn file_count(list: Option<Seq<char>>) -> i32 {
    match list {
        Some(s) => lines(s).len() as i32,
        None => 0,
    }
}

/// Counts the files in a dump, given its list of files as it was downloaded: text with one line
/// per file, compressed with gzip. A list that cannot be read counts as empty, and so does one
/// that could not be downloaded.
pub fn dump_file_count(download: Option<&[u8]>) -> (n: i32)
    ensures
        n == match download {
            Some(body) => file_count(outside::gzip_text(body@)),
            None => 0,
        },
        download is None ==> n == 0,
        download is Some && outside::gzip_text(download->0@) is None ==> n == 0,
        download is Some && outside::gzip_text(download->0@) is Some && lines(
            outside::gzip_text(download->0@)->0,
        ).len() <= i32::MAX ==> n as int == lines(outside::gzip_text(download->0@)->0).len(),
{
    match download {
        Some(body) => match outside::read_gzip(body) {
            Some(list) => count_lines(list.as_str()),
            None => 0,
        },
        None => 0,
    }
}

proof fn lemma_trimmed_start(s: Seq<char>)
    ensures
        trimmed_start(s).len() > 0 ==> !is_space(trimmed_start(s)[0]),
    decreases s.len(),
{
    if s.len() > 0 && is_space(s[0]) {
        lemma_trimmed_start(s.drop_first());
    }
}

proof fn lemma_trimmed_end(s: Seq<char>)
    ensures
        trimmed_end(s).len() <= s.len(),
        trimmed_end(s).len() > 0 ==> !is_space(trimmed_end(s).last()) && trimmed_end(s)[0] == s[0],
    decreases s.len(),
{
    if s.len() > 0 && is_space(s.last()) {
        lemma_trimmed_end(s.drop_last());
    }
}

proof fn lemma_items(list: Seq<Seq<char>>)
    ensures
        forall|i: int|
            0 <= i < items(list).len() ==> {
                &&& (#[trigger] items(list)[i]).len() > 0
                &&& !is_space(items(list)[i][0])
                &&& !is_space(items(list)[i].last())
            },
    decreases list.len(),
{
    if list.len() > 0 {
        let rest = list.drop_first();
        lemma_items(rest);
        lemma_trimmed_start(list[0]);
        lemma_trimmed_end(trimmed_start(list[0]));
        assert forall|i: int| 0 <= i < items(list).len() implies {
            &&& (#[trigger] items(list)[i]).len() > 0
            &&& !is_space(items(list)[i][0])
            &&& !is_space(items(list)[i].last())
        } by {
            if trimmed(list[0]).len() == 0 {
                assert(items(list)[i] == items(rest)[i]);
            } else if i > 0 {
                assert(items(list)[i] == items(rest)[i - 1]);
            }
        }
    }
}

/// No name in the queue is empty or has white space around it.
pub proof fn law_queued_names_are_trimmed(list: Seq<char>)
    ensures
        forall|i: int|
            0 <= i < dump_queue(list).len() ==> {
                &&& (#[trigger] dump_queue(list)[i]).len() > 0
                &&& !is_space(dump_queue(list)[i][0])
                &&& !is_space(dump_queue(list)[i].last())
            },
{
    lemma_items(lines(list));
    let all = items(lines(list));
    assert forall|i: int| 0 <= i < dump_queue(list).len() implies {
        &&& (#[trigger] dump_queue(list)[i]).len() > 0
        &&& !is_space(dump_queue(list)[i][0])
        &&& !is_space(dump_queue(list)[i].last())
    } by {
        assert(dump_queue(list)[i] == all[all.len() - 1 - i]);
    }
}

proof fn lemma_feeds_filter(s: Seq<char>)
    ensures
        feeds(s) == s.filter(|c: char| c == '\n').len(),
    decreases s.len(),
{
    reveal(Seq::filter);
    if s.len() > 0 {
        lemma_feeds_filter(s.drop_last());
    }
}

/// A text has a line for each line feed, and one more where it does not end with one.
pub proof fn law_lines_are_counted(s: Seq<char>)
    ensures
        lines(s).len() == s.filter(|c: char| c == '\n').len() + if s.len() > 0 && s.last() != '\n' {
            1nat
        } else {
            0nat
        },
{
    lemma_line_count(s);
    lemma_feeds_filter(s);
}

/// A list that can be read tells exactly as many files as it has lines, as far as 32 bits reach,
/// and one that cannot be read tells none.
pub proof fn law_every_line_is_a_file(s: Seq<char>)
    ensures
        lines(s).len() <= i32::MAX ==> file_count(Some(s)) as int == lines(s).len(),
        s.filter(|c: char| c == '\n').len() < i32::MAX ==> file_count(Some(s)) as int == s.filter(
            |c: char| c == '\n',
        ).len() + if s.len() > 0 && s.last() != '\n' {
            1int
        } else {
            0int
        },
        file_count(None) == 0,
{
    law_lines_are_counted(s);
}

/// One more line in a list is one more file.
pub proof fn law_one_more_line_is_one_more_file(s: Seq<char>, line: Seq<char>)
    requires
        forall|i: int| 0 <= i < line.len() ==> line[i] != '\n',
        s.len() > 0 ==> s.last() == '\n',
        lines(s).len() < i32::MAX,
    ensures
        file_count(Some(s + line.push('\n'))) as int == file_count(Some(s)) as int + 1,
{
    lemma_line_count(s);
    lemma_line_count(s + line.push('\n'));
    lemma_no_feeds(line);
    lemma_feeds_concat(s, line.push('\n'));
    assert(line.push('\n').drop_last() =~= line);
    assert((s + line.push('\n')).last() == '\n');
}

/// A text is taken apart at its line feeds: a line that ends with one stands without it, and
/// without the carriage return before it, and what follows is taken apart in the same way. What
/// is left without a line feed is a line as it stands.
pub proof fn law_lines_end_at_feeds(line: Seq<char>, rest: Seq<char>)
    requires
        forall|i: int| 0 <= i < line.len() ==> line[i] != '\n',
    ensures
        lines(Seq::empty()) == Seq::<Seq<char>>::empty(),
        line.len() > 0 ==> lines(line) == seq![line],
        lines(line.push('\n') + rest) == seq![
            if line.len() > 0 && line.last() == '\r' {
                line.drop_last()
            } else {
                line
            },
        ] + lines(rest),
{
    let s = line.push('\n') + rest;
    let k = line.len() as int;
    lemma_line_end(line, line.len());
    assert forall|i: int| 0 <= i < k implies s[i] != '\n' by {
        assert(s[i] == line[i]);
    }
    assert(s[k] == '\n');
    lemma_line_end(s, line.len());
    assert(s.subrange(0, k) =~= line);
    assert(s.subrange(k + 1, s.len() as int) =~= rest);
}

/// A text that goes on after a line feed has the lines before it and then the lines after it.
pub proof fn law_lines_go_on(a: Seq<char>, b: Seq<char>)
    requires
        a.len() > 0,
        a.last() == '\n',
    ensures
        lines(a + b) == lines(a) + lines(b),
    decreases a.len(),
{
    lemma_line_end_bounds(a);
    let k = line_end(a) as int;
    if k >= a.len() {
        assert(a[a.len() - 1] != '\n');
    }
    let line = a.subrange(0, k);
    let rest = a.subrange(k + 1, a.len() as int);
    assert(a =~= line.push('\n') + rest);
    assert(a + b =~= line.push('\n') + (rest + b));
    law_lines_end_at_feeds(line, rest);
    law_lines_end_at_feeds(line, rest + b);
    if rest.len() > 0 {
        assert(rest.last() == a.last());
        law_lines_go_on(rest, b);
        assert(lines(a + b) =~= lines(a) + lines(b));
    } else {
        assert(rest =~= Seq::empty());
        assert(rest + b =~= b);
        assert(lines(a + b) =~= lines(a) + lines(b));
    }
}

/// White space is what Unicode gives that property: these characters and no others.
pub proof fn law_white_space(c: char)
    ensures
        is_space(c) == seq![
            '\t', '\n', '\u{b}', '\u{c}', '\r', ' ', '\u{85}', '\u{a0}', '\u{1680}', '\u{2000}',
            '\u{2001}', '\u{2002}', '\u{2003}', '\u{2004}', '\u{2005}', '\u{2006}', '\u{2007}',
            '\u{2008}', '\u{2009}', '\u{200a}', '\u{2028}', '\u{2029}', '\u{202f}', '\u{205f}',
            '\u{3000}',
        ].contains(c),
{
    let all = seq![
        '\t', '\n', '\u{b}', '\u{c}', '\r', ' ', '\u{85}', '\u{a0}', '\u{1680}', '\u{2000}',
        '\u{2001}', '\u{2002}', '\u{2003}', '\u{2004}', '\u{2005}', '\u{2006}', '\u{2007}',
        '\u{2008}', '\u{2009}', '\u{200a}', '\u{2028}', '\u{2029}', '\u{202f}', '\u{205f}',
        '\u{3000}',
    ];
    let n = c as int;
    if is_space(c) {
        let i = if n <= 0x0d {
            n - 9
        } else if n == 0x20 {
            5
        } else if n == 0x85 {
            6
        } else if n == 0xa0 {
            7
        } else if n == 0x1680 {
            8
        } else if n <= 0x200a {
            n - 0x2000 + 9
        } else if n == 0x2028 {
            20
        } else if n == 0x2029 {
            21
        } else if n == 0x202f {
            22
        } else if n == 0x205f {
            23
        } else {
            24
        };
        assert(all[i] == c);
    }
}

proof fn lemma_trimmed_start_at(s: Seq<char>) -> (a: int)
    ensures
        0 <= a <= s.len(),
        trimmed_start(s) == s.subrange(a, s.len() as int),
        forall|i: int| 0 <= i < a ==> is_space(#[trigger] s[i]),
        a < s.len() ==> !is_space(s[a]),
    decreases s.len(),
{
    if s.len() > 0 && is_space(s[0]) {
        let t = s.drop_first();
        let b = lemma_trimmed_start_at(t);
        assert(t.subrange(b, t.len() as int) =~= s.subrange(b + 1, s.len() as int));
        assert forall|i: int| 0 <= i < b + 1 implies is_space(#[trigger] s[i]) by {
            if i > 0 {
                assert(s[i] == t[i - 1]);
            }
        }
        b + 1
    } else {
        assert(s.subrange(0, s.len() as int) =~= s);
        0
    }
}

proof fn lemma_trimmed_end_at(s: Seq<char>) -> (b: int)
    ensures
        0 <= b <= s.len(),
        trimmed_end(s) == s.subrange(0, b),
        forall|i: int| b <= i < s.len() ==> is_space(#[trigger] s[i]),
        b > 0 ==> !is_space(s[b - 1]),
    decreases s.len(),
{
    if s.len() > 0 && is_space(s.last()) {
        let t = s.drop_last();
        let b = lemma_trimmed_end_at(t);
        assert(t.subrange(0, b) =~= s.subrange(0, b));
        assert forall|i: int| b <= i < s.len() implies is_space(#[trigger] s[i]) by {
            if i < t.len() {
                assert(s[i] == t[i]);
            }
        }
        b
    } else {
        assert(s.subrange(0, s.len() as int) =~= s);
        s.len() as int
    }
}

/// Trimming takes away the white space at both ends and nothing else: what is left stands in the
/// text as it is, with only white space before and after it, and neither begins nor ends with any.
pub proof fn law_trimming_takes_only_white_space(s: Seq<char>)
    ensures
        exists|a: int, b: int|
            {
                &&& 0 <= a <= b <= s.len()
                &&& trimmed(s) == #[trigger] s.subrange(a, b)
                &&& forall|i: int| 0 <= i < a ==> is_space(#[trigger] s[i])
                &&& forall|i: int| b <= i < s.len() ==> is_space(#[trigger] s[i])
                &&& a < b ==> !is_space(s[a]) && !is_space(s[b - 1])
            },
{
    let a = lemma_trimmed_start_at(s);
    let t = s.subrange(a, s.len() as int);
    let n = lemma_trimmed_end_at(t);
    let b = a + n;
    assert(t.subrange(0, n) =~= s.subrange(a, b));
    assert forall|i: int| b <= i < s.len() implies is_space(#[trigger] s[i]) by {
        assert(s[i] == t[i - a]);
    }
    if n > 0 {
        assert(t[n - 1] == s[b - 1]);
    }
}

/// The dumps of a list are its lines in order, each trimmed, but for those that hold white space
/// only.
pub proof fn law_items_are_the_lines(a: Seq<Seq<char>>, b: Seq<Seq<char>>, line: Seq<char>)
    ensures
        items(Seq::empty()) == Seq::<Seq<char>>::empty(),
        items(a + b) == items(a) + items(b),
        (forall|i: int| 0 <= i < line.len() ==> is_space(#[trigger] line[i])) ==> items(seq![line])
            == Seq::<Seq<char>>::empty(),
        (exists|i: int| 0 <= i < line.len() && !is_space(#[trigger] line[i])) ==> items(seq![line])
            == seq![trimmed(line)],
    decreases a.len(),
{
    reveal_with_fuel(items, 2);
    assert(seq![line].drop_first() =~= Seq::empty());
    let from = lemma_trimmed_start_at(line);
    let t = line.subrange(from, line.len() as int);
    let to = lemma_trimmed_end_at(t);
    if exists|i: int| 0 <= i < line.len() && !is_space(#[trigger] line[i]) {
        assert(from < line.len());
        assert(t[0] == line[from]);
        assert(to > 0);
        assert(items(seq![line]) =~= seq![trimmed(line)]);
    }
    if forall|i: int| 0 <= i < line.len() ==> is_space(#[trigger] line[i]) {
        assert(from == line.len());
        assert(items(seq![line]) =~= Seq::empty());
    }
    if a.len() == 0 {
        assert(a + b =~= b);
        assert(items(a) + items(b) =~= items(b));
    } else {
        law_items_are_the_lines(a.drop_first(), b, line);
        assert((a + b).drop_first() =~= a.drop_first() + b);
        assert(items(a + b) =~= items(a) + items(b));
    }
}

/// The dump on a later line comes before those on earlier lines: with one more line at its end, a
/// list queues that line first, trimmed, unless it is blank.
pub proof fn law_later_lines_come_first(list: Seq<char>, line: Seq<char>)
    requires
        list.len() > 0 ==> list.last() == '\n',
        forall|i: int| 0 <= i < line.len() ==> line[i] != '\n',
    ensures
        dump_queue(Seq::empty()) == Seq::<Seq<char>>::empty(),
        (exists|i: int| 0 <= i < line.len() && !is_space(#[trigger] line[i])) ==> dump_queue(
            list + line,
        ) == seq![trimmed(line)] + dump_queue(list),
        (forall|i: int| 0 <= i < line.len() ==> is_space(#[trigger] line[i])) ==> dump_queue(
            list + line,
        ) == dump_queue(list),
{
    assert(dump_queue(Seq::empty()) =~= Seq::<Seq<char>>::empty());
    law_lines_end_at_feeds(line, Seq::empty());
    if list.len() > 0 {
        law_lines_go_on(list, line);
    } else {
        assert(list + line =~= line);
        assert(lines(list) + lines(line) =~= lines(line));
    }
    law_items_are_the_lines(lines(list), lines(line), line);
    let before = items(lines(list));
    if line.len() == 0 {
        assert(line =~= Seq::empty());
        assert(before + items(lines(line)) =~= before);
    }
    if exists|i: int| 0 <= i < line.len() && !is_space(#[trigger] line[i]) {
        assert((before + seq![trimmed(line)]).reverse() =~= seq![trimmed(line)] + before.reverse());
    } else {
        assert(before + items(lines(line)) =~= before);
    }
}

} // verus!
