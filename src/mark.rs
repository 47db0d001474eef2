//! Terminal styling of task text: the strikethrough that marks a task done,
//! the bold of a list index, and the removal of the done mark.
use colored::Colorize;
use vstd::prelude::*;
use vstd::string::*;

verus! {

/// The escape character that starts every terminal style sequence.
pub open spec fn esc() -> char {
    '\x1b'
}

/// The sequence that switches a style with the given code on.
pub open spec fn style_code(code: char) -> Seq<char> {
    seq![esc(), '[', code, 'm']
}

/// The sequence that switches every style off.
pub open spec fn reset_code() -> Seq<char> {
    style_code('0')
}

/// The style code of bold text.
pub open spec fn bold_code() -> char {
    '1'
}

/// The style code of struck-through text.
pub open spec fn strike_code() -> char {
    '9'
}

/// `s` with `style` put back after each reset sequence in it, so that a reset
/// inside styled text does not end the outer style.
pub open spec fn escape_resets(s: Seq<char>, style: Seq<char>) -> Seq<char>
    decreases s.len(),
{
    if s.len() == 0 {
        Seq::empty()
    } else if s.len() >= 4 && s.take(4) == reset_code() {
        reset_code() + style + escape_resets(s.skip(4), style)
    } else {
        seq![s[0]] + escape_resets(s.skip(1), style)
    }
}

/// `s` shown in the style with the given code.
pub open spec fn styled(code: char, s: Seq<char>) -> Seq<char> {
    style_code(code) + escape_resets(s, style_code(code)) + reset_code()
}

/// Relies on `colored`'s `Colorize::strikethrough` and its `Display`: when
/// colouring is on (which depends on the environment and the terminal) the
/// text is wrapped in the strikethrough sequence, otherwise it is unchanged.
#[verifier::external_body]
pub(crate) fn strikethrough_text(s: &str) -> (r: String)
    ensures
        r@ == s@ || r@ == styled(strike_code(), s@),
{
    s.strikethrough().to_string()
}

/// Relies on `colored`'s `Colorize::bold` and its `Display`: when colouring is
/// on the text is wrapped in the bold sequence, otherwise it is unchanged.
#[verifier::external_body]
pub(crate) fn bold_text(s: &str) -> (r: String)
    ensures
        r@ == s@ || r@ == styled(bold_code(), s@),
{
    s.bold().to_string()
}

/// `s` with every occurrence of `p` taken out, read from the left.
pub open spec fn remove_all(s: Seq<char>, p: Seq<char>) -> Seq<char>
    decreases s.len(),
{
    if s.len() == 0 || p.len() == 0 {
        s
    } else if s.len() >= p.len() && s.take(p.len() as int) == p {
        remove_all(s.skip(p.len() as int), p)
    } else {
        seq![s[0]] + remove_all(s.skip(1), p)
    }
}

/// `s` with the done mark taken out: the strikethrough and reset sequences.
pub open spec fn unmarked(s: Seq<char>) -> Seq<char> {
    remove_all(remove_all(s, style_code(strike_code())), reset_code())
}

fn occurs_at(s: &str, n: usize, p: &str, m: usize, i: usize) -> (r: bool)
    requires
        n == s@.len(),
        m == p@.len(),
        i <= n,
    ensures
        r == (m <= n - i && s@.subrange(i as int, i + m) == p@),
{
    if m > n - i {
        return false;
    }
    let mut j: usize = 0;
    while j < m
        invariant
            m <= n - i,
            n == s@.len(),
            m == p@.len(),
            j <= m,
            forall|k: int| 0 <= k < j ==> s@[i + k] == p@[k],
        decreases m - j,
    {
        if s.get_char(i + j) != p.get_char(j) {
            assert(s@.subrange(i as int, i + m)[j as int] != p@[j as int]);
            return false;
        }
        j = j + 1;
    }
    assert(s@.subrange(i as int, i + m) =~= p@);
    true
}

/// `s` with every occurrence of `p` taken out.
pub fn remove_occurrences(s: &str, p: &str) -> (r: String)
    ensures
        r@ == remove_all(s@, p@),
{
    let n = s.unicode_len();
    let m = p.unicode_len();
    if m == 0 {
        return String::from_str(s);
    }
    let mut out = String::new();
    let mut i: usize = 0;
    assert(s@.skip(0) =~= s@);
    while i < n
        invariant
            n == s@.len(),
            m == p@.len(),
            m > 0,
            i <= n,
            out@ + remove_all(s@.skip(i as int), p@) == remove_all(s@, p@),
        decreases n - i,
    {
        let rest = Ghost(s@.skip(i as int));
        if occurs_at(s, n, p, m, i) {
            assert(rest@.take(m as int) =~= s@.subrange(i as int, i + m));
            assert(rest@.skip(m as int) =~= s@.skip(i + m));
            i = i + m;
        } else {
            if m <= n - i {
                assert(rest@.take(m as int) =~= s@.subrange(i as int, i + m));
            }
            let ghost before = out@;
            out.append(s.substring_char(i, i + 1));
            assert(rest@.skip(1) =~= s@.skip(i + 1));
            assert(s@.subrange(i as int, i + 1) =~= seq![rest@[0]]);
            assert(out@ + remove_all(s@.skip(i + 1), p@) =~= before + remove_all(rest@, p@));
            i = i + 1;
        }
    }
    assert(s@.skip(n as int) =~= Seq::<char>::empty());
    assert(out@ + Seq::<char>::empty() =~= out@);
    out
}

/// `s` with the done mark taken out.
pub fn unmark(s: &str) -> (r: String)
    ensures
        r@ == unmarked(s@),
{
    proof {
        reveal_strlit("\x1b[9m");
        reveal_strlit("\x1b[0m");
    }
    assert("\x1b[9m"@ =~= style_code(strike_code()));
    assert("\x1b[0m"@ =~= reset_code());
    let t = remove_occurrences(s, "\x1b[9m");
    remove_occurrences(t.as_str(), "\x1b[0m")
}


/// Whether `s` holds no escape character.
pub open spec fn has_no_esc(s: Seq<char>) -> bool {
    forall|i: int| 0 <= i < s.len() ==> #[trigger] s[i] != esc()
}

proof fn lemma_escape_resets_plain(s: Seq<char>, style: Seq<char>)
    requires
        has_no_esc(s),
    ensures
        escape_resets(s, style) == s,
    decreases s.len(),
{
    if s.len() > 0 {
        if s.len() >= 4 {
            assert(s.take(4)[0] != reset_code()[0]);
        }
        lemma_escape_resets_plain(s.skip(1), style);
        assert(seq![s[0]] + s.skip(1) =~= s);
    }
}

proof fn lemma_remove_all_plain_prefix(a: Seq<char>, b: Seq<char>, p: Seq<char>)
    requires
        has_no_esc(a),
        p.len() > 0,
        p[0] == esc(),
    ensures
        remove_all(a + b, p) == a + remove_all(b, p),
    decreases a.len(),
{
    if a.len() == 0 {
        assert(a + b =~= b);
        assert(a + remove_all(b, p) =~= remove_all(b, p));
    } else {
        let ab = a + b;
        if ab.len() >= p.len() {
            assert(ab.take(p.len() as int)[0] != p[0]);
        }
        assert(ab.skip(1) =~= a.skip(1) + b);
        lemma_remove_all_plain_prefix(a.skip(1), b, p);
        assert(seq![a[0]] + (a.skip(1) + remove_all(b, p)) =~= a + remove_all(b, p));
    }
}

/// Marking a task done and then taking the mark out gives back its text,
/// whether or not the terminal showed the strikethrough, for any text that
/// holds no escape character of its own.
pub proof fn lemma_unmark_undoes_strike(s: Seq<char>, marked: Seq<char>)
    requires
        has_no_esc(s),
        marked == s || marked == styled(strike_code(), s),
    ensures
        unmarked(marked) == s,
{
    let open = style_code(strike_code());
    let reset = reset_code();
    let empty = Seq::<char>::empty();
    lemma_remove_all_plain_prefix(s, empty, open);
    lemma_remove_all_plain_prefix(s, empty, reset);
    assert(s + empty =~= s);
    if marked != s {
        lemma_escape_resets_plain(s, open);
        assert(marked =~= open + (s + reset));
        assert(marked.take(4) =~= open);
        assert(marked.skip(4) =~= s + reset);
        lemma_remove_all_plain_prefix(s, reset, open);
        assert(reset.take(4) =~= reset);
        assert(reset.take(4) != open) by {
            assert(reset[2] != open[2]);
        }
        let tail = reset.skip(1);
        assert(has_no_esc(tail));
        lemma_remove_all_plain_prefix(tail, empty, open);
        assert(tail + empty =~= tail);
        assert(seq![reset[0]] + tail =~= reset);
        assert(remove_all(reset, open) == reset);
        lemma_remove_all_plain_prefix(s, reset, reset);
        assert(reset.skip(4) =~= empty);
        assert(remove_all(reset, reset) == remove_all(empty, reset));
        assert(s + empty =~= s);
    }
}

} // verus!
