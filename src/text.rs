//! Plain text helpers: whitespace, lines of a file, and the file text of a
//! list of lines.
use vstd::prelude::*;
use vstd::string::*;

verus! {

/// The characters with the Unicode `White_Space` property.
pub open spec fn is_space_char(c: char) -> bool {
    let u = c as u32;
    (0x09 <= u && u <= 0x0d) || u == 0x20 || u == 0x85 || u == 0xa0 || u == 0x1680 || (0x2000 <= u
        && u <= 0x200a) || u == 0x2028 || u == 0x2029 || u == 0x202f || u == 0x205f || u == 0x3000
}

/// A text is blank when nothing is left of it after trimming whitespace.
pub open spec fn is_blank_text(s: Seq<char>) -> bool {
    forall|i: int| 0 <= i < s.len() ==> is_space_char(#[trigger] s[i])
}

/// Whether `c` is a whitespace character.
pub fn is_space(c: char) -> (r: bool)
    ensures
        r == is_space_char(c),
{
    let u = c as u32;
    (0x09 <= u && u <= 0x0d) || u == 0x20 || u == 0x85 || u == 0xa0 || u == 0x1680 || (0x2000 <= u
        && u <= 0x200a) || u == 0x2028 || u == 0x2029 || u == 0x202f || u == 0x205f || u == 0x3000
}

/// Whether `s` holds nothing but whitespace (an empty text included).
pub fn is_blank(s: &str) -> (r: bool)
    ensures
        r == is_blank_text(s@),
{
    let n = s.unicode_len();
    let mut i: usize = 0;
    while i < n
        invariant
            n == s@.len(),
            i <= n,
            forall|k: int| 0 <= k < i ==> is_space_char(#[trigger] s@[k]),
        decreases n - i,
    {
        if !is_space(s.get_char(i)) {
            return false;
        }
        i = i + 1;
    }
    true
}


/// A line as `BufRead::lines` hands it out: a `'\r'` before the newline is
/// dropped with it.
pub open spec fn strip_cr(s: Seq<char>) -> Seq<char> {
    if s.len() > 0 && s.last() == '\r' {
        s.drop_last()
    } else {
        s
    }
}

/// Reading `s` from the left: the lines already ended by a newline, and the
/// characters read since the last newline.
pub open spec fn split_lines(s: Seq<char>) -> (Seq<Seq<char>>, Seq<char>)
    decreases s.len(),
{
    if s.len() == 0 {
        (Seq::empty(), Seq::empty())
    } else {
        let (ended, open) = split_lines(s.drop_last());
        if s.last() == '\n' {
            (ended.push(strip_cr(open)), Seq::empty())
        } else {
            (ended, open.push(s.last()))
        }
    }
}

/// The lines of a file text: each newline ends one, and a last line without
/// a newline counts too, unless it is empty.
pub open spec fn lines_of(s: Seq<char>) -> Seq<Seq<char>> {
    let (ended, open) = split_lines(s);
    if open.len() == 0 {
        ended
    } else {
        ended.push(open)
    }
}

/// The file text of a list of lines: each line followed by a newline.
pub open spec fn file_text_of(lines: Seq<Seq<char>>) -> Seq<char>
    decreases lines.len(),
{
    if lines.len() == 0 {
        Seq::empty()
    } else {
        file_text_of(lines.drop_last()) + lines.last() + seq!['\n']
    }
}

/// The texts of a sequence of strings.
pub open spec fn texts(v: Seq<String>) -> Seq<Seq<char>> {
    v.map_values(|t: String| t@)
}

/// A line that the file format can hold: no newline in it, and no `'\r'` at
/// its end, which would be read back as part of the line break.
pub open spec fn is_line(s: Seq<char>) -> bool {
    &&& forall|i: int| 0 <= i < s.len() ==> #[trigger] s[i] != '\n'
    &&& !(s.len() > 0 && s.last() == '\r')
}

proof fn lemma_split_lines_prefix(s: Seq<char>, i: int)
    requires
        0 <= i < s.len(),
    ensures
        split_lines(s.take(i + 1)) == ({
            let (ended, open) = split_lines(s.take(i));
            if s[i] == '\n' {
                (ended.push(strip_cr(open)), Seq::<char>::empty())
            } else {
                (ended, open.push(s[i]))
            }
        }),
{
    assert(s.take(i + 1).drop_last() =~= s.take(i));
}

/// Splits a file text into its lines.
pub fn split_into_lines(s: &str) -> (r: Vec<String>)
    ensures
        texts(r@) == lines_of(s@),
{
    let n = s.unicode_len();
    let mut out: Vec<String> = Vec::new();
    let mut start: usize = 0;
    let mut i: usize = 0;
    assert(s@.take(0) =~= Seq::<char>::empty());
    while i < n
        invariant
            n == s@.len(),
            start <= i <= n,
            split_lines(s@.take(i as int)) == (texts(out@), s@.subrange(start as int, i as int)),
        decreases n - i,
    {
        proof {
            lemma_split_lines_prefix(s@, i as int);
        }
        let c = s.get_char(i);
        if c == '\n' {
            let mut end = i;
            if i > start && s.get_char(i - 1) == '\r' {
                end = i - 1;
            }
            let line = String::from_str(s.substring_char(start, end));
            proof {
                let open = s@.subrange(start as int, i as int);
                assert(strip_cr(open) =~= s@.subrange(start as int, end as int));
            }
            let ghost prev = out@;
            out.push(line);
            assert(texts(out@) =~= texts(prev).push(line@));
            start = i + 1;
            assert(s@.subrange(start as int, i + 1) =~= Seq::<char>::empty());
        } else {
            assert(s@.subrange(start as int, i + 1) =~= s@.subrange(start as int, i as int).push(c));
        }
        i = i + 1;
    }
    assert(s@.take(n as int) =~= s@);
    if start < n {
        let line = String::from_str(s.substring_char(start, n));
        let ghost prev = out@;
        out.push(line);
        assert(texts(out@) =~= texts(prev).push(line@));
    }
    out
}


/// The file text that holds `lines`, one per line.
pub fn join_lines(lines: &Vec<String>) -> (r: String)
    ensures
        r@ == file_text_of(texts(lines@)),
{
    let mut out = String::new();
    let mut i: usize = 0;
    while i < lines.len()
        invariant
            i <= lines@.len(),
            out@ == file_text_of(texts(lines@).take(i as int)),
        decreases lines@.len() - i,
    {
        proof {
            reveal_strlit("\n");
        }
        let ghost before = out@;
        out.append(lines[i].as_str());
        out.append("\n");
        let ghost next = texts(lines@).take(i + 1);
        assert(next.drop_last() =~= texts(lines@).take(i as int));
        assert(next.last() == lines@[i as int]@);
        assert(out@ =~= before + lines@[i as int]@ + seq!['\n']);
        i = i + 1;
    }
    assert(texts(lines@).take(i as int) =~= texts(lines@));
    out
}

proof fn lemma_split_line_chars(t: Seq<char>, x: Seq<char>, ended: Seq<Seq<char>>, j: int)
    requires
        split_lines(t) == (ended, Seq::<char>::empty()),
        is_line(x),
        0 <= j <= x.len(),
    ensures
        split_lines(t + x.take(j)) == (ended, x.take(j)),
    decreases j,
{
    if j == 0 {
        assert(t + x.take(0) =~= t);
        assert(x.take(0) =~= Seq::<char>::empty());
    } else {
        lemma_split_line_chars(t, x, ended, j - 1);
        assert((t + x.take(j)).drop_last() =~= t + x.take(j - 1));
        assert(x.take(j - 1).push(x[j - 1]) =~= x.take(j));
    }
}

proof fn lemma_split_file_text(lines: Seq<Seq<char>>)
    requires
        forall|k: int| 0 <= k < lines.len() ==> is_line(#[trigger] lines[k]),
    ensures
        split_lines(file_text_of(lines)) == (lines, Seq::<char>::empty()),
    decreases lines.len(),
{
    if lines.len() > 0 {
        let prev = lines.drop_last();
        let x = lines.last();
        assert forall|k: int| 0 <= k < prev.len() implies is_line(#[trigger] prev[k]) by {
            assert(prev[k] == lines[k]);
        }
        lemma_split_file_text(prev);
        assert(is_line(lines[lines.len() - 1]));
        lemma_split_line_chars(file_text_of(prev), x, prev, x.len() as int);
        assert(x.take(x.len() as int) =~= x);
        let all = file_text_of(prev) + x + seq!['\n'];
        assert(all.drop_last() =~= file_text_of(prev) + x);
        assert(strip_cr(x) == x);
        assert(prev.push(x) =~= lines);
    }
}

/// Writing lines to a file text and reading it back gives the same lines,
/// as many as there were and in the same order.
pub proof fn lemma_lines_of_file_text(lines: Seq<Seq<char>>)
    requires
        forall|k: int| 0 <= k < lines.len() ==> is_line(#[trigger] lines[k]),
    ensures
        lines_of(file_text_of(lines)) == lines,
{
    lemma_split_file_text(lines);
}


/// The decimal digit of a number below ten.
pub open spec fn digit_char(d: nat) -> char {
    if d == 0 {
        '0'
    } else if d == 1 {
        '1'
    } else if d == 2 {
        '2'
    } else if d == 3 {
        '3'
    } else if d == 4 {
        '4'
    } else if d == 5 {
        '5'
    } else if d == 6 {
        '6'
    } else if d == 7 {
        '7'
    } else if d == 8 {
        '8'
    } else {
        '9'
    }
}

/// The decimal digits of `n`, without leading zeros.
pub open spec fn decimal(n: nat) -> Seq<char>
    decreases n,
{
    if n < 10 {
        seq![digit_char(n)]
    } else {
        decimal(n / 10) + seq![digit_char(n % 10)]
    }
}

/// `n` written in decimal.
pub fn decimal_text(n: usize) -> (r: String)
    ensures
        r@ == decimal(n as nat),
    decreases n,
{
    let d = n % 10;
    proof {
        reveal_strlit("0123456789");
    }
    let digit = "0123456789".substring_char(d, d + 1);
    assert(digit@ =~= seq![digit_char(d as nat)]);
    if n < 10 {
        String::from_str(digit)
    } else {
        let mut out = decimal_text(n / 10);
        out.append(digit);
        out
    }
}

} // verus!
