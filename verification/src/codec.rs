//! The text form of the local manifest, and its parser.
//!
//! The manifest is persisted as plain lines: a version line, then one line
//! per entry holding the size (or a dash when the listing reported none)
//! and the path. The parser accepts exactly what the renderer writes and
//! rejects everything else, which keeps a reload equal to what was saved;
//! an unparsable file is the caller's cue to fall back to an empty
//! manifest.
use vstd::prelude::*;
use vstd::string::StrSliceExecFns;
use vstd::string::StringExecFns;

use crate::manifest::Lockfile;
use crate::manifest::WebsiteTreeEntry;
use crate::manifest::distinct_paths;
use crate::manifest::tree_model;

verus! {

/// The ten decimal digit characters.
pub open spec fn is_digit(c: char) -> bool {
    '0' <= c && c <= '9'
}

/// The digit character of a value below ten.
pub open spec fn digit_char(d: int) -> char {
    if d == 0 {
        '0'
    } else if d == 1 {
        '1'
    } else if d == 2 {
        '2'
    } else if d == 3 {
        '3'
    } else if d == 4 {
        '4'
    } else if d == 5 {
        '5'
    } else if d == 6 {
        '6'
    } else if d == 7 {
        '7'
    } else if d == 8 {
        '8'
    } else {
        '9'
    }
}

/// The value of a digit character, and -1 for any other character.
pub open spec fn digit_val(c: char) -> int {
    if c == '0' {
        0
    } else if c == '1' {
        1
    } else if c == '2' {
        2
    } else if c == '3' {
        3
    } else if c == '4' {
        4
    } else if c == '5' {
        5
    } else if c == '6' {
        6
    } else if c == '7' {
        7
    } else if c == '8' {
        8
    } else if c == '9' {
        9
    } else {
        -1
    }
}

/// The canonical decimal representation of `n`: no leading zero except for
/// zero itself.
pub open spec fn dec_rep(n: nat) -> Seq<char>
    decreases n,
{
    if n < 10 {
        seq![digit_char(n as int)]
    } else {
        dec_rep(n / 10) + seq![digit_char((n % 10) as int)]
    }
}

/// Every character of `s` is a decimal digit.
pub open spec fn all_digits(s: Seq<char>) -> bool {
    forall|i: int| 0 <= i < s.len() ==> is_digit(#[trigger] s[i])
}

/// The value of a digit string, most significant digit first.
pub open spec fn seq_val(s: Seq<char>) -> int
    decreases s.len(),
{
    if s.len() == 0 {
        0
    } else {
        seq_val(s.drop_last()) * 10 + digit_val(s.last())
    }
}

/// The number a token of one or more digits stands for, `None` otherwise.
pub open spec fn parse_nat(s: Seq<char>) -> Option<int> {
    if s.len() >= 1 && all_digits(s) {
        Some(seq_val(s))
    } else {
        None
    }
}

/// A digit character is a digit and carries its value back.
proof fn lemma_digit_char_val(d: int)
    requires
        0 <= d <= 9,
    ensures
        is_digit(digit_char(d)),
        digit_val(digit_char(d)) == d,
{
}

/// The canonical decimal representation is a nonempty digit string whose
/// value is the number itself.
pub proof fn lemma_dec_rep_round(n: nat)
    ensures
        dec_rep(n).len() >= 1,
        all_digits(dec_rep(n)),
        seq_val(dec_rep(n)) == n,
    decreases n,
{
    if n < 10 {
        lemma_digit_char_val(n as int);
        assert(seq_val(dec_rep(n).drop_last()) == 0) by {
            assert(dec_rep(n).drop_last() =~= Seq::<char>::empty());
        }
    } else {
        lemma_dec_rep_round(n / 10);
        lemma_digit_char_val((n % 10) as int);
        let s = dec_rep(n);
        assert(s.drop_last() =~= dec_rep(n / 10));
        assert(s.last() == digit_char((n % 10) as int));
        assert forall|i: int| 0 <= i < s.len() implies is_digit(#[trigger] s[i]) by {
            if i < s.len() - 1 {
                assert(s[i] == dec_rep(n / 10)[i]);
            }
        }
        assert(seq_val(s) == (n / 10) * 10 + (n % 10));
    }
}

/// Digit strings hold no separator characters.
pub proof fn lemma_digits_not_special(s: Seq<char>)
    requires
        all_digits(s),
    ensures
        !s.contains('\n'),
        !s.contains(' '),
        !s.contains('-'),
{
    assert forall|i: int| 0 <= i < s.len() implies s[i] != '\n' && s[i] != ' ' && s[i] != '-' by {
        assert(is_digit(s[i]));
    }
}

/// Extending a digit string by one digit multiplies its value by ten and
/// adds the digit.
proof fn lemma_seq_val_extend(s: Seq<char>, i: int)
    requires
        0 <= i < s.len(),
    ensures
        seq_val(s.subrange(0, i + 1)) == 10 * seq_val(s.subrange(0, i)) + digit_val(s[i]),
{
    let t = s.subrange(0, i + 1);
    assert(t.drop_last() =~= s.subrange(0, i));
    assert(t.last() == s[i]);
}

/// The value of a digit string and of each of its prefixes is nonnegative,
/// and a longer prefix is worth at least as much as a shorter one.
proof fn lemma_seq_val_mono(s: Seq<char>, i: int, j: int)
    requires
        0 <= i <= j <= s.len(),
        forall|k: int| 0 <= k < j ==> is_digit(#[trigger] s[k]),
    ensures
        0 <= seq_val(s.subrange(0, i)) <= seq_val(s.subrange(0, j)),
    decreases j - i,
{
    if i == j {
        lemma_seq_val_nonneg(s.subrange(0, i));
    } else {
        lemma_seq_val_mono(s, i, j - 1);
        lemma_seq_val_extend(s, j - 1);
        assert(is_digit(s[j - 1]));
    }
}

/// The value of an all-digit string is nonnegative.
proof fn lemma_seq_val_nonneg(s: Seq<char>)
    requires
        forall|k: int| 0 <= k < s.len() ==> is_digit(#[trigger] s[k]),
    ensures
        seq_val(s) >= 0,
    decreases s.len(),
{
    if s.len() > 0 {
        assert(forall|k: int|
            0 <= k < s.drop_last().len() ==> is_digit(#[trigger] s.drop_last()[k]));
        lemma_seq_val_nonneg(s.drop_last());
        assert(is_digit(s.last()));
    }
}

/// The digit character of a value below ten, as a one-character string.
fn digit_str(d: u64) -> (r: &'static str)
    requires
        d < 10,
    ensures
        r@ == seq![digit_char(d as int)],
{
    proof {
        reveal_strlit("0");
        reveal_strlit("1");
        reveal_strlit("2");
        reveal_strlit("3");
        reveal_strlit("4");
        reveal_strlit("5");
        reveal_strlit("6");
        reveal_strlit("7");
        reveal_strlit("8");
        reveal_strlit("9");
    }
    let r = match d {
        0 => "0",
        1 => "1",
        2 => "2",
        3 => "3",
        4 => "4",
        5 => "5",
        6 => "6",
        7 => "7",
        8 => "8",
        _ => "9",
    };
    proof {
        assert(r@ =~= seq![digit_char(d as int)]);
    }
    r
}

/// Renders `n` in its canonical decimal form.
pub fn render_u64(n: u64) -> (r: String)
    ensures
        r@ == dec_rep(n as nat),
    decreases n,
{
    if n < 10 {
        String::from_str(digit_str(n))
    } else {
        let mut s = render_u64(n / 10);
        s.append(digit_str(n % 10));
        s
    }
}

/// The value of a digit character, `None` for any other character.
fn digit_of(c: char) -> (r: Option<u64>)
    ensures
        match r {
            Some(d) => is_digit(c) && d == digit_val(c),
            None => !is_digit(c),
        },
{
    match c {
        '0' => Some(0),
        '1' => Some(1),
        '2' => Some(2),
        '3' => Some(3),
        '4' => Some(4),
        '5' => Some(5),
        '6' => Some(6),
        '7' => Some(7),
        '8' => Some(8),
        '9' => Some(9),
        _ => None,
    }
}

/// Parses the characters of `s` in `[from, to)` as a decimal number.
/// Returns `None` when the range is empty, holds a non-digit, or the value
/// does not fit in a `u64`.
pub fn parse_u64_range(s: &str, from: usize, to: usize) -> (r: Option<u64>)
    requires
        from <= to <= s@.len(),
    ensures
        match r {
            Some(v) => parse_nat(s@.subrange(from as int, to as int)) == Some(v as int),
            None => {
                ||| parse_nat(s@.subrange(from as int, to as int)) is None
                ||| (parse_nat(s@.subrange(from as int, to as int)) matches Some(m) && m
                    > u64::MAX)
            },
        },
{
    let ghost t = s@.subrange(from as int, to as int);
    if from == to {
        return None;
    }
    let mut acc: u64 = 0;
    let mut i: usize = from;
    proof {
        assert(t.subrange(0, 0) =~= Seq::<char>::empty());
    }
    while i < to
        invariant
            from <= i <= to <= s@.len(),
            t == s@.subrange(from as int, to as int),
            forall|k: int| 0 <= k < i - from ==> is_digit(#[trigger] t[k]),
            acc as int == seq_val(t.subrange(0, i - from)),
        decreases to - i,
    {
        let c = s.get_char(i);
        proof {
            assert(t[i - from] == s@[i as int]);
        }
        let d = match digit_of(c) {
            Some(d) => d,
            None => {
                return None;
            },
        };
        proof {
            lemma_seq_val_extend(t, i - from);
        }
        if acc > (u64::MAX - d) / 10 {
            proof {
                if all_digits(t) {
                    assert(10 * (acc as int) + d > u64::MAX) by (nonlinear_arith)
                        requires
                            d <= 9,
                            acc > (u64::MAX - d) / 10,
                    ;
                    assert(seq_val(t.subrange(0, i - from + 1)) > u64::MAX);
                    lemma_seq_val_mono(t, i - from + 1, t.len() as int);
                    assert(t.subrange(0, t.len() as int) =~= t);
                }
            }
            return None;
        }
        proof {
            assert(10 * (acc as int) + d <= u64::MAX) by (nonlinear_arith)
                requires
                    d <= 9,
                    acc <= (u64::MAX - d) / 10,
            ;
        }
        acc = acc * 10 + d;
        i += 1;
    }
    proof {
        assert(t.subrange(0, t.len() as int) =~= t);
    }
    Some(acc)
}

/// The position of the first occurrence of `c` in `s`.
pub open spec fn find_char(s: Seq<char>, c: char) -> Option<int>
    decreases s.len(),
{
    if s.len() == 0 {
        None
    } else if s[0] == c {
        Some(0)
    } else {
        match find_char(s.skip(1), c) {
            None => None,
            Some(i) => Some(i + 1),
        }
    }
}

/// `find_char` yields the first occurrence, and `None` exactly when the
/// character is absent.
pub proof fn lemma_find_char_props(s: Seq<char>, c: char)
    ensures
        match find_char(s, c) {
            Some(i) => 0 <= i < s.len() && s[i] == c && forall|j: int| 0 <= j < i ==> s[j] != c,
            None => forall|j: int| 0 <= j < s.len() ==> s[j] != c,
        },
    decreases s.len(),
{
    if s.len() > 0 && s[0] != c {
        lemma_find_char_props(s.skip(1), c);
        assert(forall|j: int| 0 <= j < s.skip(1).len() ==> s.skip(1)[j] == s[j + 1]);
        match find_char(s.skip(1), c) {
            Some(i) => {
                assert(s[i + 1] == c);
                assert forall|j: int| 0 <= j < i + 1 implies s[j] != c by {
                    if j > 0 {
                        assert(s.skip(1)[j - 1] != c);
                    }
                }
            },
            None => {
                assert forall|j: int| 0 <= j < s.len() implies s[j] != c by {
                    if j > 0 {
                        assert(s.skip(1)[j - 1] != c);
                    }
                }
            },
        }
    }
}

/// Finding in a concatenation whose first part lacks the character scans
/// into the second part.
pub proof fn lemma_find_char_concat(a: Seq<char>, b: Seq<char>, c: char)
    requires
        !a.contains(c),
    ensures
        find_char(a + b, c) == match find_char(b, c) {
            None => None::<int>,
            Some(i) => Some(a.len() + i),
        },
    decreases a.len(),
{
    if a.len() == 0 {
        assert(a + b =~= b);
    } else {
        assert((a + b).len() > 0);
        assert((a + b)[0] == a[0]);
        assert(a[0] != c);
        assert((a + b).skip(1) =~= a.skip(1) + b);
        assert forall|j: int| 0 <= j < a.skip(1).len() implies a.skip(1)[j] != c by {
            assert(a.skip(1)[j] == a[j + 1]);
        }
        lemma_find_char_concat(a.skip(1), b, c);
    }
}

/// Finds the first occurrence of `c` in `s` within `[from, to)`.
fn find_char_in(s: &str, from: usize, to: usize, c: char) -> (r: Option<usize>)
    requires
        from <= to <= s@.len(),
    ensures
        match r {
            Some(i) => from <= i < to && find_char(s@.subrange(from as int, to as int), c) == Some(
                i - from,
            ),
            None => find_char(s@.subrange(from as int, to as int), c) is None,
        },
{
    let ghost t = s@.subrange(from as int, to as int);
    let mut i: usize = from;
    while i < to
        invariant
            from <= i <= to <= s@.len(),
            t == s@.subrange(from as int, to as int),
            forall|k: int| 0 <= k < i - from ==> t[k] != c,
        decreases to - i,
    {
        if s.get_char(i) == c {
            proof {
                assert(t[i - from] == c);
                lemma_find_char_props(t, c);
                match find_char(t, c) {
                    Some(x) => {
                        if x < i - from {
                            assert(t[x] != c);
                        }
                        if x > i - from {
                            assert(t[i - from] != c);
                        }
                    },
                    None => {
                        assert(t[i - from] != c);
                    },
                }
            }
            return Some(i);
        }
        proof {
            assert(t[i - from] == s@[i as int]);
        }
        i += 1;
    }
    proof {
        lemma_find_char_props(t, c);
        match find_char(t, c) {
            Some(x) => {
                assert(t[x] != c);
            },
            None => {},
        }
    }
    None
}

/// Returns whether `c` occurs in `s`.
fn contains_char(s: &str, c: char) -> (r: bool)
    ensures
        r == s@.contains(c),
{
    let len = s.unicode_len();
    let mut i: usize = 0;
    while i < len
        invariant
            i <= len,
            len == s@.len(),
            forall|k: int| 0 <= k < i ==> s@[k] != c,
        decreases len - i,
    {
        if s.get_char(i) == c {
            return true;
        }
        i += 1;
    }
    false
}

/// The token a size is written as: its decimal form, or a dash when the
/// listing reported no size.
pub open spec fn size_token(sz: Option<u64>) -> Seq<char> {
    match sz {
        None => "-"@,
        Some(n) => dec_rep(n as nat),
    }
}

/// The line an entry is written as: the marker, the size token, then the
/// path, which may itself contain spaces.
pub open spec fn render_entry_line(e: (Seq<char>, Option<u64>)) -> Seq<char> {
    "tree "@ + size_token(e.1) + " "@ + e.0
}

/// The entry lines, each terminated by a newline.
pub open spec fn render_entries(t: Seq<(Seq<char>, Option<u64>)>) -> Seq<char>
    decreases t.len(),
{
    if t.len() == 0 {
        Seq::empty()
    } else {
        render_entry_line(t[0]) + seq!['\n'] + render_entries(t.skip(1))
    }
}

/// The version line.
pub open spec fn render_version_line(v: u8) -> Seq<char> {
    "version "@ + dec_rep(v as nat)
}

/// The whole persisted text: the version line, then the entry lines, every
/// line terminated by a newline.
pub open spec fn render_lock_model(v: u8, t: Seq<(Seq<char>, Option<u64>)>) -> Seq<char> {
    render_version_line(v) + seq!['\n'] + render_entries(t)
}

/// The size a token stands for: `None` (no recorded size) for a dash, the
/// value for a digit string that fits in a `u64`; no other token parses.
pub open spec fn parse_size_token(tok: Seq<char>) -> Option<Option<u64>> {
    if tok == "-"@ {
        Some(None)
    } else {
        match parse_nat(tok) {
            Some(n) => if 0 <= n <= u64::MAX {
                Some(Some(n as u64))
            } else {
                None
            },
            None => None,
        }
    }
}

/// The entry a line stands for: marker, size token up to the first space,
/// then the path.
pub open spec fn parse_entry_line(line: Seq<char>) -> Option<(Seq<char>, Option<u64>)> {
    if !"tree "@.is_prefix_of(line) {
        None
    } else {
        let rest = line.skip("tree "@.len() as int);
        match find_char(rest, ' ') {
            None => None,
            Some(k) => if !(0 <= k < rest.len()) {
                None
            } else {
                match parse_size_token(rest.subrange(0, k)) {
                    None => None,
                    Some(sz) => Some((rest.skip(k + 1), sz)),
                }
            },
        }
    }
}

/// The version a line stands for, when it fits the schema-version range.
pub open spec fn parse_version_line(line: Seq<char>) -> Option<u8> {
    if !"version "@.is_prefix_of(line) {
        None
    } else {
        match parse_nat(line.skip("version "@.len() as int)) {
            Some(n) => if 0 <= n <= 255 {
                Some(n as u8)
            } else {
                None
            },
            None => None,
        }
    }
}

/// The entries a text stands for: newline-terminated entry lines, each of
/// which must parse.
pub open spec fn parse_entries(s: Seq<char>) -> Option<Seq<(Seq<char>, Option<u64>)>>
    decreases s.len(),
{
    if s.len() == 0 {
        Some(Seq::empty())
    } else {
        match find_char(s, '\n') {
            None => None,
            Some(k) => if !(0 <= k < s.len()) {
                None
            } else {
                match parse_entry_line(s.subrange(0, k)) {
                    None => None,
                    Some(e) => match parse_entries(s.skip(k + 1)) {
                        None => None,
                        Some(es) => Some(seq![e] + es),
                    },
                }
            },
        }
    }
}

/// The manifest a text stands for: a version line, then entry lines with
/// pairwise distinct paths; anything else does not parse.
pub open spec fn parse_lock_model(s: Seq<char>) -> Option<(u8, Seq<(Seq<char>, Option<u64>)>)> {
    match find_char(s, '\n') {
        None => None,
        Some(k) => if !(0 <= k < s.len()) {
            None
        } else {
            match parse_version_line(s.subrange(0, k)) {
                None => None,
                Some(v) => match parse_entries(s.skip(k + 1)) {
                    None => None,
                    Some(es) => if distinct_paths(es) {
                        Some((v, es))
                    } else {
                        None
                    },
                },
            }
        },
    }
}

/// Concatenation holds a character exactly when one of its parts does.
proof fn lemma_concat_contains(a: Seq<char>, b: Seq<char>, c: char)
    ensures
        (a + b).contains(c) == (a.contains(c) || b.contains(c)),
{
    if a.contains(c) {
        let i = choose|i: int| 0 <= i < a.len() && a[i] == c;
        assert((a + b)[i] == c);
    }
    if b.contains(c) {
        let i = choose|i: int| 0 <= i < b.len() && b[i] == c;
        assert((a + b)[a.len() + i] == c);
    }
    if (a + b).contains(c) {
        let i = choose|i: int| 0 <= i < (a + b).len() && (a + b)[i] == c;
        if i < a.len() {
            assert(a[i] == c);
        } else {
            assert(b[i - a.len()] == c);
        }
    }
}

/// A size token parses back to the size it was written from, and holds no
/// separator.
proof fn lemma_size_token_round(sz: Option<u64>)
    ensures
        parse_size_token(size_token(sz)) == Some(sz),
        !size_token(sz).contains('\n'),
        !size_token(sz).contains(' '),
{
    reveal_strlit("-");
    match sz {
        None => {
            assert(size_token(sz) == "-"@);
            assert forall|i: int| 0 <= i < "-"@.len() implies "-"@[i] != '\n' && "-"@[i] != ' ' by {
                assert("-"@[0] == '-');
            }
        },
        Some(n) => {
            lemma_dec_rep_round(n as nat);
            lemma_digits_not_special(dec_rep(n as nat));
            let tok = dec_rep(n as nat);
            assert(tok != "-"@) by {
                if tok == "-"@ {
                    assert(tok[0] == '-');
                    assert(is_digit(tok[0]));
                }
            };
            assert(parse_nat(tok) == Some(n as int));
        },
    }
}

/// An entry line parses back to the entry it was written from, and holds
/// no newline, provided the path holds none.
proof fn lemma_entry_line_round(e: (Seq<char>, Option<u64>))
    requires
        !e.0.contains('\n'),
    ensures
        parse_entry_line(render_entry_line(e)) == Some(e),
        !render_entry_line(e).contains('\n'),
{
    reveal_strlit("tree ");
    reveal_strlit(" ");
    lemma_size_token_round(e.1);
    let tok = size_token(e.1);
    let line = render_entry_line(e);
    assert(line =~= "tree "@ + tok + " "@ + e.0);
    assert("tree "@.len() == 5);
    assert("tree "@.is_prefix_of(line)) by {
        assert(line.subrange(0, 5) =~= "tree "@);
    };
    let rest = line.skip(5);
    assert(rest =~= tok + (" "@ + e.0));
    assert((" "@ + e.0)[0] == ' ');
    lemma_find_char_concat(tok, " "@ + e.0, ' ');
    assert(find_char(rest, ' ') == Some(tok.len() as int));
    let k = tok.len() as int;
    assert(rest.subrange(0, k) =~= tok);
    assert(rest.skip(k + 1) =~= e.0);
    assert(parse_entry_line(line) == Some((e.0, e.1)));
    assert(e == (e.0, e.1));
    assert(!line.contains('\n')) by {
        lemma_concat_contains("tree "@ + tok + " "@, e.0, '\n');
        lemma_concat_contains("tree "@ + tok, " "@, '\n');
        lemma_concat_contains("tree "@, tok, '\n');
        assert forall|i: int| 0 <= i < "tree "@.len() implies "tree "@[i] != '\n' by {
            assert("tree "@[0] == 't');
            assert("tree "@[1] == 'r');
            assert("tree "@[2] == 'e');
            assert("tree "@[3] == 'e');
            assert("tree "@[4] == ' ');
        }
        assert(!" "@.contains('\n')) by {
            assert forall|i: int| 0 <= i < " "@.len() implies " "@[i] != '\n' by {
                assert(" "@[0] == ' ');
            }
        };
    };
}

/// The entry lines parse back to the entries they were written from,
/// provided no path holds a newline.
proof fn lemma_entries_round(t: Seq<(Seq<char>, Option<u64>)>)
    requires
        forall|i: int| 0 <= i < t.len() ==> !(#[trigger] t[i].0).contains('\n'),
    ensures
        parse_entries(render_entries(t)) == Some(t),
    decreases t.len(),
{
    if t.len() == 0 {
        assert(t =~= Seq::<(Seq<char>, Option<u64>)>::empty());
    } else {
        let line = render_entry_line(t[0]);
        let rest = render_entries(t.skip(1));
        lemma_entry_line_round(t[0]);
        assert(forall|i: int|
            0 <= i < t.skip(1).len() ==> !(#[trigger] t.skip(1)[i].0).contains('\n')) by {
            assert(forall|i: int| 0 <= i < t.skip(1).len() ==> t.skip(1)[i] == t[i + 1]);
        };
        lemma_entries_round(t.skip(1));
        let s = render_entries(t);
        assert(s =~= line + (seq!['\n'] + rest));
        assert((seq!['\n'] + rest)[0] == '\n');
        lemma_find_char_concat(line, seq!['\n'] + rest, '\n');
        assert(find_char(s, '\n') == Some(line.len() as int));
        let k = line.len() as int;
        assert(s.len() > k);
        assert(s.subrange(0, k) =~= line);
        assert(s.skip(k + 1) =~= rest);
        assert(parse_entries(s) == Some(seq![t[0]] + t.skip(1)));
        assert(seq![t[0]] + t.skip(1) =~= t);
    }
}

/// Law: a persisted manifest reloads to the same schema version and the
/// same entries — paths, sizes and order alike — provided each path holds
/// no newline and no path repeats.
pub proof fn lemma_lockfile_round_trip(v: u8, t: Seq<(Seq<char>, Option<u64>)>)
    requires
        distinct_paths(t),
        forall|i: int| 0 <= i < t.len() ==> !(#[trigger] t[i].0).contains('\n'),
    ensures
        parse_lock_model(render_lock_model(v, t)) == Some((v, t)),
{
    reveal_strlit("version ");
    lemma_dec_rep_round(v as nat);
    lemma_digits_not_special(dec_rep(v as nat));
    let vline = render_version_line(v);
    let body = render_entries(t);
    let s = render_lock_model(v, t);
    assert(s =~= vline + (seq!['\n'] + body));
    assert(!vline.contains('\n')) by {
        lemma_concat_contains("version "@, dec_rep(v as nat), '\n');
        assert forall|i: int| 0 <= i < "version "@.len() implies "version "@[i] != '\n' by {
            assert("version "@[0] == 'v');
            assert("version "@[1] == 'e');
            assert("version "@[2] == 'r');
            assert("version "@[3] == 's');
            assert("version "@[4] == 'i');
            assert("version "@[5] == 'o');
            assert("version "@[6] == 'n');
            assert("version "@[7] == ' ');
        }
    };
    assert((seq!['\n'] + body)[0] == '\n');
    lemma_find_char_concat(vline, seq!['\n'] + body, '\n');
    assert(find_char(s, '\n') == Some(vline.len() as int));
    let k = vline.len() as int;
    assert(s.len() > k);
    assert(s.subrange(0, k) =~= vline);
    assert(s.skip(k + 1) =~= body);
    assert(parse_version_line(vline) == Some(v)) by {
        assert("version "@.is_prefix_of(vline)) by {
            assert(vline.subrange(0, 8) =~= "version "@);
        };
        assert(vline.skip(8) =~= dec_rep(v as nat));
        assert(parse_nat(dec_rep(v as nat)) == Some(v as int));
    };
    lemma_entries_round(t);
}

/// Returns whether the characters of `s` in `[start, end)` begin with `pat`.
fn range_has_prefix(s: &str, start: usize, end: usize, pat: &str) -> (r: bool)
    requires
        start <= end <= s@.len(),
    ensures
        r == pat@.is_prefix_of(s@.subrange(start as int, end as int)),
{
    let ghost t = s@.subrange(start as int, end as int);
    let m = pat.unicode_len();
    if m > end - start {
        return false;
    }
    let mut j: usize = 0;
    while j < m
        invariant
            j <= m,
            m == pat@.len(),
            start <= end <= s@.len(),
            start + m <= end,
            t == s@.subrange(start as int, end as int),
            forall|k: int| 0 <= k < j ==> t[k] == pat@[k],
        decreases m - j,
    {
        if s.get_char(start + j) != pat.get_char(j) {
            proof {
                assert(t[j as int] == s@[start + j]);
                assert(t.subrange(0, m as int)[j as int] != pat@[j as int]);
            }
            return false;
        }
        proof {
            assert(t[j as int] == s@[start + j]);
        }
        j += 1;
    }
    proof {
        assert(pat@ =~= t.subrange(0, m as int));
    }
    true
}

/// Renders the manifest in its persisted text form, or `None` when some
/// recorded path contains a newline and so cannot be written line-wise.
pub fn render_lockfile(lock: &Lockfile) -> (r: Option<String>)
    ensures
        match r {
            Some(out) => out@ == render_lock_model(lock.spec_version(), lock.model())
                && forall|i: int|
                0 <= i < lock.model().len() ==> !(#[trigger] lock.model()[i].0).contains('\n'),
            None => exists|i: int|
                0 <= i < lock.model().len() && (#[trigger] lock.model()[i].0).contains('\n'),
        },
{
    proof {
        reveal_strlit("version ");
        reveal_strlit("tree ");
        reveal_strlit(" ");
        reveal_strlit("-");
        reveal_strlit("\n");
    }
    let ghost m = lock.model();
    let ghost v = lock.spec_version();
    let mut out = String::from_str("version ");
    let num = render_u64(lock.schema_version() as u64);
    out.append(num.as_str());
    out.append("\n");
    proof {
        assert("\n"@ =~= seq!['\n']);
        assert(m.skip(0) =~= m);
        assert(out@ + render_entries(m) =~= render_lock_model(v, m));
    }
    let entries = lock.entries();
    let n = entries.len();
    let mut i: usize = 0;
    while i < n
        invariant
            i <= n,
            n == entries@.len(),
            tree_model(entries@) == m,
            m.len() == n,
            m == lock.model(),
            v == lock.spec_version(),
            out@ + render_entries(m.skip(i as int)) == render_lock_model(v, m),
            forall|k: int| 0 <= k < i ==> !(#[trigger] m[k].0).contains('\n'),
        decreases n - i,
    {
        proof {
            reveal_strlit("tree ");
            reveal_strlit(" ");
            reveal_strlit("-");
            reveal_strlit("\n");
            assert(entries@[i as int].model() == m[i as int]);
        }
        let ghost out0 = out@;
        if contains_char(entries[i].path.as_str(), '\n') {
            proof {
                assert(m[i as int].0.contains('\n'));
            }
            return None;
        }
        out.append("tree ");
        match &entries[i].size {
            None => out.append("-"),
            Some(sz) => {
                let num2 = render_u64(*sz);
                out.append(num2.as_str());
            },
        }
        out.append(" ");
        out.append(entries[i].path.as_str());
        out.append("\n");
        proof {
            assert(out@ =~= out0 + render_entry_line(m[i as int]) + seq!['\n']);
            assert(m.skip(i as int)[0] == m[i as int]);
            assert(m.skip(i as int).skip(1) =~= m.skip(i + 1 as int));
            assert(render_entries(m.skip(i as int)) =~= render_entry_line(m[i as int])
                + seq!['\n'] + render_entries(m.skip(i + 1 as int)));
            assert(out@ + render_entries(m.skip(i + 1 as int)) =~= render_lock_model(v, m));
        }
        i += 1;
    }
    proof {
        assert(m.skip(n as int) =~= Seq::<(Seq<char>, Option<u64>)>::empty());
        assert(out@ + render_entries(m.skip(n as int)) =~= out@);
    }
    Some(out)
}

/// Parses the characters of `s` in `[start, end)` as one entry line.
fn parse_entry_range(s: &str, start: usize, end: usize) -> (r: Option<WebsiteTreeEntry>)
    requires
        start <= end <= s@.len(),
    ensures
        match r {
            Some(e) => parse_entry_line(s@.subrange(start as int, end as int)) == Some(e.model()),
            None => parse_entry_line(s@.subrange(start as int, end as int)) is None,
        },
{
    proof {
        reveal_strlit("tree ");
        reveal_strlit("-");
    }
    let ghost line = s@.subrange(start as int, end as int);
    if !range_has_prefix(s, start, end, "tree ") {
        return None;
    }
    let ghost rest = line.skip(5);
    proof {
        assert(rest =~= s@.subrange(start + 5 as int, end as int));
    }
    let sp = match find_char_in(s, start + 5, end, ' ') {
        None => {
            return None;
        },
        Some(sp) => sp,
    };
    let ghost k = sp - (start + 5) as int;
    proof {
        assert(find_char(rest, ' ') == Some(k));
        assert(rest.subrange(0, k) =~= s@.subrange(start + 5 as int, sp as int));
    }
    let size: Option<u64>;
    if sp - (start + 5) == 1 && s.get_char(start + 5) == '-' {
        size = None;
        proof {
            assert(rest.subrange(0, k)[0] == s@[start + 5 as int]);
            assert(rest.subrange(0, k) =~= "-"@);
            assert(parse_size_token(rest.subrange(0, k)) == Some(None::<u64>));
        }
    } else {
        proof {
            assert(rest.subrange(0, k) != "-"@) by {
                if rest.subrange(0, k) == "-"@ {
                    assert(k == 1);
                    assert(rest.subrange(0, k)[0] == '-');
                    assert(s@[start + 5 as int] == '-');
                }
            };
        }
        let val = match parse_u64_range(s, start + 5, sp) {
            None => {
                return None;
            },
            Some(val) => val,
        };
        size = Some(val);
        proof {
            assert(parse_size_token(rest.subrange(0, k)) == Some(Some(val)));
        }
    }
    let path = s.substring_char(sp + 1, end).to_owned();
    proof {
        assert(path@ =~= rest.skip(k + 1));
    }
    Some(WebsiteTreeEntry { path, size })
}

/// Returns whether the entries carry pairwise distinct paths.
fn paths_distinct(v: &Vec<WebsiteTreeEntry>) -> (r: bool)
    ensures
        r == distinct_paths(tree_model(v@)),
{
    let n = v.len();
    let mut i: usize = 0;
    while i < n
        invariant
            i <= n,
            n == v@.len(),
            forall|a: int, b: int|
                0 <= a < b < i ==> (#[trigger] tree_model(v@)[a]).0 != (#[trigger] tree_model(
                    v@,
                )[b]).0,
        decreases n - i,
    {
        let mut j: usize = 0;
        while j < i
            invariant
                j <= i < n,
                n == v@.len(),
                forall|a: int| 0 <= a < j ==> (#[trigger] tree_model(v@)[a]).0 != tree_model(
                    v@,
                )[i as int].0,
            decreases i - j,
        {
            if crate::manifest::string_eq(&v[j].path, &v[i].path) {
                proof {
                    assert(tree_model(v@)[j as int].0 == tree_model(v@)[i as int].0);
                }
                return false;
            }
            proof {
                assert(tree_model(v@)[j as int].0 == v@[j as int].path@);
            }
            j += 1;
        }
        i += 1;
    }
    true
}

/// Parses a persisted manifest text. Returns `None` — never a partial
/// manifest — when the text is not exactly a version line followed by
/// entry lines with pairwise distinct paths.
pub fn parse_lockfile(s: &str) -> (r: Option<Lockfile>)
    ensures
        match r {
            Some(lock) => parse_lock_model(s@) == Some((lock.spec_version(), lock.model()))
                && lock.wf(),
            None => parse_lock_model(s@) is None,
        },
{
    proof {
        reveal_strlit("version ");
    }
    let len = s.unicode_len();
    proof {
        assert(s@.subrange(0, len as int) =~= s@);
    }
    let k = match find_char_in(s, 0, len, '\n') {
        None => {
            return None;
        },
        Some(k) => k,
    };
    let ghost vline = s@.subrange(0, k as int);
    if !range_has_prefix(s, 0, k, "version ") {
        return None;
    }
    let v64 = match parse_u64_range(s, 8, k) {
        None => {
            proof {
                assert(vline.skip(8) =~= s@.subrange(8, k as int));
            }
            return None;
        },
        Some(v) => v,
    };
    proof {
        assert(vline.skip(8) =~= s@.subrange(8, k as int));
    }
    if v64 > 255 {
        return None;
    }
    let version: u8 = v64 as u8;
    let ghost start = k + 1 as int;
    let mut entries: Vec<WebsiteTreeEntry> = Vec::new();
    let mut pos: usize = k + 1;
    proof {
        assert(tree_model(entries@) =~= Seq::<(Seq<char>, Option<u64>)>::empty());
        if parse_entries(s@.skip(pos as int)) is Some {
            let es = parse_entries(s@.skip(pos as int)).unwrap();
            assert(tree_model(entries@) + es =~= es);
        }
    }
    while pos < len
        invariant
            k + 1 <= pos <= len,
            len == s@.len(),
            start == k + 1,
            find_char(s@, '\n') == Some(k as int),
            parse_version_line(s@.subrange(0, k as int)) == Some(version),
            match parse_entries(s@.skip(pos as int)) {
                Some(es) => parse_entries(s@.skip(start)) == Some(tree_model(entries@) + es),
                None => parse_entries(s@.skip(start)) is None,
            },
        decreases len - pos,
    {
        let ghost tail = s@.skip(pos as int);
        proof {
            assert(tail =~= s@.subrange(pos as int, len as int));
            assert(tail.len() > 0);
        }
        let nl = match find_char_in(s, pos, len, '\n') {
            None => {
                return None;
            },
            Some(nl) => nl,
        };
        proof {
            assert(tail.subrange(0, nl - pos as int) =~= s@.subrange(pos as int, nl as int));
        }
        let e = match parse_entry_range(s, pos, nl) {
            None => {
                return None;
            },
            Some(e) => e,
        };
        let ghost prev = tree_model(entries@);
        entries.push(e);
        proof {
            assert(tree_model(entries@) =~= prev.push(e.model()));
            assert(tail.skip(nl - pos as int + 1) =~= s@.skip(nl + 1 as int));
            let es_tail = parse_entries(s@.skip(nl + 1 as int));
            match es_tail {
                Some(es) => {
                    assert(parse_entries(tail) == Some(seq![e.model()] + es));
                    assert(prev + (seq![e.model()] + es) =~= tree_model(entries@) + es);
                },
                None => {},
            }
        }
        pos = nl + 1;
    }
    proof {
        assert(s@.skip(pos as int) =~= Seq::<char>::empty());
        assert(parse_entries(s@.skip(pos as int)) == Some(Seq::<(Seq<char>, Option<u64>)>::empty()));
        assert(tree_model(entries@) + Seq::<(Seq<char>, Option<u64>)>::empty()
            =~= tree_model(entries@));
    }
    if !paths_distinct(&entries) {
        return None;
    }
    let lock = Lockfile::from_parts(version, entries);
    Some(lock)
}

/// The manifest a sync run starts from: the parsed content where it
/// parses, and an empty manifest otherwise — an absent or unreadable file
/// is not fatal.
pub fn parse_or_default(content: Option<&str>) -> (r: Lockfile)
    ensures
        r.wf(),
        match content {
            Some(s) => match parse_lock_model(s@) {
                Some(p) => r.spec_version() == p.0 && r.model() == p.1,
                None => r.model() == Seq::<(Seq<char>, Option<u64>)>::empty() && r.spec_version()
                    == 1,
            },
            None => r.model() == Seq::<(Seq<char>, Option<u64>)>::empty() && r.spec_version() == 1,
        },
{
    match content {
        Some(s) => match parse_lockfile(s) {
            Some(lock) => lock,
            None => Lockfile::default(),
        },
        None => Lockfile::default(),
    }
}

} // verus!
