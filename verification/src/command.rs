//! The command codec.
//!
//! A segment file is a concatenation of command records without separators.
//! Each record is the JSON object `{"Set":{"key":K,"value":V}}` or
//! `{"Remove":{"key":K}}`, where `K` and `V` are quoted strings with `"` and
//! `\` escaped by a backslash. The encoding is self-delimiting: a decoder
//! started at the first byte of a record finds its exact end, so records can
//! be decoded one after another from any known start offset.

use vstd::prelude::*;
use crate::text::{chars_to_string, push_str_chars, str_to_chars};

verus! {

/// A mutation record: an assignment or a deletion marker.
#[derive(Debug, Clone)]
pub enum Command {
    Put { key: String, value: String },
    Remove { key: String },
}

/// The mathematical form of a command: its key and value as character
/// sequences.
pub enum SpecCommand {
    Put { key: Seq<char>, value: Seq<char> },
    Remove { key: Seq<char> },
}

impl View for Command {
    type V = SpecCommand;

    open spec fn view(&self) -> SpecCommand {
        match self {
            Command::Put { key, value } => SpecCommand::Put { key: key@, value: value@ },
            Command::Remove { key } => SpecCommand::Remove { key: key@ },
        }
    }
}

impl Command {
    /// An assignment of `value` to `key`.
    pub fn set(key: String, value: String) -> (r: Command)
        ensures
            r@ == (SpecCommand::Put { key: key@, value: value@ }),
    {
        Command::Put { key, value }
    }

    /// A deletion marker for `key`.
    pub fn remove(key: String) -> (r: Command)
        ensures
            r@ == (SpecCommand::Remove { key: key@ }),
    {
        Command::Remove { key }
    }
}

/// How one character is written inside a quoted string.
pub open spec fn esc_char(c: char) -> Seq<char> {
    if c == '"' || c == '\\' {
        seq!['\\', c]
    } else {
        seq![c]
    }
}

/// How a whole string is written inside quotes.
pub open spec fn esc(s: Seq<char>) -> Seq<char>
    decreases s.len(),
{
    if s.len() == 0 {
        Seq::empty()
    } else {
        esc_char(s[0]) + esc(s.skip(1))
    }
}

proof fn lemma_esc_push(s: Seq<char>, c: char)
    ensures
        esc(s.push(c)) == esc(s) + esc_char(c),
    decreases s.len(),
{
    if s.len() == 0 {
        assert(s.push(c)[0] == c);
        assert(s.push(c).skip(1) =~= Seq::<char>::empty());
        assert(esc(Seq::<char>::empty()) == Seq::<char>::empty());
        assert(esc(s.push(c)) == esc_char(c) + esc(Seq::<char>::empty()));
        assert(esc(s.push(c)) =~= esc(s) + esc_char(c));
    } else {
        assert(s.push(c)[0] == s[0]);
        assert(s.push(c).skip(1) =~= s.skip(1).push(c));
        lemma_esc_push(s.skip(1), c);
        assert(esc(s.push(c)) == esc_char(s[0]) + (esc(s.skip(1)) + esc_char(c)));
        assert(esc(s.push(c)) =~= esc(s) + esc_char(c));
    }
}

/// The opening of a `Set` record, up to the first character of the key.
pub open spec fn lit_set_open() -> Seq<char> {
    "{\"Set\":{\"key\":\""@
}

/// Between the key's closing quote and the value's opening quote.
pub open spec fn lit_set_mid() -> Seq<char> {
    "\",\"value\":\""@
}

/// The closing of a `Set` record, from the value's closing quote on.
pub open spec fn lit_set_close() -> Seq<char> {
    "\"}}"@
}

/// The opening of a `Remove` record, up to the first character of the key.
pub open spec fn lit_remove_open() -> Seq<char> {
    "{\"Remove\":{\"key\":\""@
}

/// The encoded form of a command.
pub open spec fn spec_encode(c: SpecCommand) -> Seq<char> {
    match c {
        SpecCommand::Put { key, value } => lit_set_open() + esc(key) + lit_set_mid() + esc(value)
            + lit_set_close(),
        SpecCommand::Remove { key } => lit_remove_open() + esc(key) + lit_set_close(),
    }
}

/// Appends the escaped form of `s` to `out`.
fn push_escaped(out: &mut Vec<char>, s: &str)
    ensures
        final(out)@ == old(out)@ + esc(s@),
{
    let cs = str_to_chars(s);
    let mut i: usize = 0;
    proof {
        assert(s@.take(0) =~= Seq::<char>::empty());
        assert(out@ =~= old(out)@ + esc(s@.take(0)));
    }
    while i < cs.len()
        invariant
            i <= cs.len(),
            cs@ == s@,
            out@ == old(out)@ + esc(s@.take(i as int)),
        decreases cs.len() - i,
    {
        let c = cs[i];
        if c == '"' || c == '\\' {
            out.push('\\');
            out.push(c);
        } else {
            out.push(c);
        }
        proof {
            lemma_esc_push(s@.take(i as int), s@[i as int]);
            assert(s@.take(i + 1) =~= s@.take(i as int).push(s@[i as int]));
            assert(out@ =~= old(out)@ + esc(s@.take(i + 1)));
        }
        i = i + 1;
    }
    proof {
        assert(s@.take(cs@.len() as int) =~= s@);
    }
}

/// Whether `lit` occurs in `s` starting at position `i`.
pub open spec fn spec_match_lit(s: Seq<char>, i: int, lit: Seq<char>) -> bool {
    &&& 0 <= i
    &&& i + lit.len() <= s.len()
    &&& s.subrange(i, i + lit.len()) == lit
}

/// Decodes a quoted string from position `i`, which must be just past the
/// opening quote. Returns the unescaped content and the position just past
/// the closing quote.
pub open spec fn parse_string_body(s: Seq<char>, i: int) -> Option<(Seq<char>, int)>
    decreases s.len() - i
    when 0 <= i <= s.len()
{
    if i >= s.len() {
        None
    } else if s[i] == '"' {
        Some((Seq::empty(), i + 1))
    } else if s[i] == '\\' {
        if i + 1 >= s.len() {
            None
        } else if s[i + 1] == '"' || s[i + 1] == '\\' {
            match parse_string_body(s, i + 2) {
                None => None,
                Some((t, j)) => Some((seq![s[i + 1]] + t, j)),
            }
        } else {
            None
        }
    } else {
        match parse_string_body(s, i + 1) {
            None => None,
            Some((t, j)) => Some((seq![s[i]] + t, j)),
        }
    }
}

/// Decodes one record from position `i`. Returns the command and the
/// position just past the record.
pub open spec fn parse_record(s: Seq<char>, i: int) -> Option<(SpecCommand, int)> {
    if spec_match_lit(s, i, lit_set_open()) {
        match parse_string_body(s, i + lit_set_open().len()) {
            None => None,
            Some((k, j)) => if spec_match_lit(s, j, lit_set_mid().skip(1)) {
                match parse_string_body(s, j + lit_set_mid().len() - 1) {
                    None => None,
                    Some((v, m)) => if spec_match_lit(s, m, lit_set_close().skip(1)) {
                        Some(((SpecCommand::Put { key: k, value: v }), m + lit_set_close().len() - 1))
                    } else {
                        None
                    },
                }
            } else {
                None
            },
        }
    } else if spec_match_lit(s, i, lit_remove_open()) {
        match parse_string_body(s, i + lit_remove_open().len()) {
            None => None,
            Some((k, j)) => if spec_match_lit(s, j, lit_set_close().skip(1)) {
                Some(((SpecCommand::Remove { key: k }), j + lit_set_close().len() - 1))
            } else {
                None
            },
        }
    } else {
        None
    }
}

/// A decoded record together with its start and end offsets in the segment.
pub struct RecAt {
    pub cmd: SpecCommand,
    pub start: int,
    pub end: int,
}

/// Decodes records one after another from position `i` to the very end of
/// `s`. `None` if any record is malformed or trailing data remains.
pub open spec fn parse_stream(s: Seq<char>, i: int) -> Option<Seq<RecAt>>
    decreases s.len() - i
    when 0 <= i <= s.len()
{
    if i == s.len() {
        Some(Seq::empty())
    } else {
        match parse_record(s, i) {
            None => None,
            Some((c, j)) => if i < j <= s.len() {
                match parse_stream(s, j) {
                    None => None,
                    Some(r) => Some(seq![RecAt { cmd: c, start: i, end: j }] + r),
                }
            } else {
                None
            },
        }
    }
}

/// The lengths and the distinguishing characters of the record literals.
pub proof fn lemma_lit_facts()
    ensures
        lit_set_open().len() == 15,
        lit_set_mid().len() == 11,
        lit_set_close().len() == 3,
        lit_remove_open().len() == 18,
        lit_set_open()[2] == 'S',
        lit_remove_open()[2] == 'R',
        lit_set_mid()[0] == '"',
        lit_set_close()[0] == '"',
{
    reveal_strlit("{\"Set\":{\"key\":\"");
    reveal_strlit("\",\"value\":\"");
    reveal_strlit("\"}}");
    reveal_strlit("{\"Remove\":{\"key\":\"");
}

/// Two equal windows stay equal on any common sub-window.
pub proof fn lemma_subrange_transfer(
    s: Seq<char>,
    i: int,
    s2: Seq<char>,
    i2: int,
    n: int,
    a: int,
    b: int,
)
    requires
        0 <= i,
        i + n <= s.len(),
        0 <= i2,
        i2 + n <= s2.len(),
        s2.subrange(i2, i2 + n) == s.subrange(i, i + n),
        0 <= a <= b <= n,
    ensures
        s2.subrange(i2 + a, i2 + b) == s.subrange(i + a, i + b),
{
    assert forall|k: int| 0 <= k < b - a implies #[trigger] s2.subrange(i2 + a, i2 + b)[k]
        == s.subrange(i + a, i + b)[k] by {
        assert(s2.subrange(i2, i2 + n)[a + k] == s.subrange(i, i + n)[a + k]);
        assert(s2.subrange(i2, i2 + n)[a + k] == s2[i2 + a + k]);
        assert(s.subrange(i, i + n)[a + k] == s[i + a + k]);
        assert(s2.subrange(i2 + a, i2 + b)[k] == s2[i2 + a + k]);
        assert(s.subrange(i + a, i + b)[k] == s[i + a + k]);
    }
    assert(s2.subrange(i2 + a, i2 + b) =~= s.subrange(i + a, i + b));
}

/// A single character of two equal windows.
pub proof fn lemma_char_transfer(s: Seq<char>, i: int, s2: Seq<char>, i2: int, n: int, a: int)
    requires
        0 <= i,
        i + n <= s.len(),
        0 <= i2,
        i2 + n <= s2.len(),
        s2.subrange(i2, i2 + n) == s.subrange(i, i + n),
        0 <= a < n,
    ensures
        s2[i2 + a] == s[i + a],
{
    assert(s2.subrange(i2, i2 + n)[a] == s.subrange(i, i + n)[a]);
    assert(s2.subrange(i2, i2 + n)[a] == s2[i2 + a]);
    assert(s.subrange(i, i + n)[a] == s[i + a]);
}

/// A decoded string body ends past its start and within the input.
pub proof fn lemma_body_bounds(s: Seq<char>, i: int)
    requires
        0 <= i <= s.len(),
    ensures
        parse_string_body(s, i) matches Some(r) ==> i < r.1 <= s.len(),
    decreases s.len() - i,
{
    if i >= s.len() {
    } else if s[i] == '"' {
    } else if s[i] == '\\' {
        if i + 1 < s.len() && (s[i + 1] == '"' || s[i + 1] == '\\') {
            lemma_body_bounds(s, i + 2);
        }
    } else {
        lemma_body_bounds(s, i + 1);
    }
}

/// A decoded record ends past its start and within the input.
pub proof fn lemma_record_bounds(s: Seq<char>, i: int)
    requires
        0 <= i <= s.len(),
    ensures
        parse_record(s, i) matches Some(r) ==> i < r.1 <= s.len(),
{
    lemma_lit_facts();
    if spec_match_lit(s, i, lit_set_open()) {
        lemma_body_bounds(s, i + lit_set_open().len());
        match parse_string_body(s, i + lit_set_open().len()) {
            None => {},
            Some((k, j)) => {
                if spec_match_lit(s, j, lit_set_mid().skip(1)) {
                    lemma_body_bounds(s, j + lit_set_mid().len() - 1);
                }
            },
        }
    } else if spec_match_lit(s, i, lit_remove_open()) {
        lemma_body_bounds(s, i + lit_remove_open().len());
    }
}

/// String decoding looks only at the characters it consumes: decoding the
/// same window of characters at another position of another sequence gives
/// the same content.
pub proof fn lemma_body_window(s: Seq<char>, i: int, s2: Seq<char>, i2: int, t: Seq<char>, j: int)
    requires
        0 <= i <= s.len(),
        0 <= i2,
        parse_string_body(s, i) == Some((t, j)),
        i2 + (j - i) <= s2.len(),
        s2.subrange(i2, i2 + (j - i)) == s.subrange(i, j),
    ensures
        parse_string_body(s2, i2) == Some((t, i2 + (j - i))),
    decreases s.len() - i,
{
    lemma_body_bounds(s, i);
    let n = j - i;
    assert(s.subrange(i, i + n) == s.subrange(i, j));
    lemma_char_transfer(s, i, s2, i2, n, 0);
    if s[i] == '"' {
    } else if s[i] == '\\' {
        match parse_string_body(s, i + 2) {
            Some((t1, j1)) => {
                lemma_body_bounds(s, i + 2);
                lemma_char_transfer(s, i, s2, i2, n, 1);
                lemma_subrange_transfer(s, i, s2, i2, n, 2, n);
                assert(s.subrange(i + 2, i + n) == s.subrange(i + 2, j1));
                lemma_body_window(s, i + 2, s2, i2 + 2, t1, j1);
            },
            None => {
                assert(false);
            },
        }
    } else {
        match parse_string_body(s, i + 1) {
            Some((t1, j1)) => {
                lemma_body_bounds(s, i + 1);
                lemma_subrange_transfer(s, i, s2, i2, n, 1, n);
                assert(s.subrange(i + 1, i + n) == s.subrange(i + 1, j1));
                lemma_body_window(s, i + 1, s2, i2 + 1, t1, j1);
            },
            None => {
                assert(false);
            },
        }
    }
}

/// Record decoding looks only at the characters it consumes.
pub proof fn lemma_record_window(
    s: Seq<char>,
    i: int,
    s2: Seq<char>,
    i2: int,
    c: SpecCommand,
    j: int,
)
    requires
        0 <= i <= s.len(),
        0 <= i2,
        parse_record(s, i) == Some((c, j)),
        i2 + (j - i) <= s2.len(),
        s2.subrange(i2, i2 + (j - i)) == s.subrange(i, j),
    ensures
        parse_record(s2, i2) == Some((c, i2 + (j - i))),
{
    lemma_lit_facts();
    lemma_record_bounds(s, i);
    let n = j - i;
    assert(s.subrange(i, i + n) == s.subrange(i, j));
    if spec_match_lit(s, i, lit_set_open()) {
        let (k, j1) = parse_string_body(s, i + lit_set_open().len()).unwrap();
        lemma_body_bounds(s, i + 15);
        let (v, m1) = parse_string_body(s, j1 + 10).unwrap();
        lemma_body_bounds(s, j1 + 10);
        // j == m1 + 2, so every piece lies inside the window
        lemma_subrange_transfer(s, i, s2, i2, n, 0, 15);
        assert(s2.subrange(i2, i2 + 15) == lit_set_open());
        assert(spec_match_lit(s2, i2, lit_set_open()));
        lemma_subrange_transfer(s, i, s2, i2, n, 15, j1 - i);
        assert(s.subrange(i + 15, i + (j1 - i)) == s.subrange(i + 15, j1));
        lemma_body_window(s, i + 15, s2, i2 + 15, k, j1);
        let j2 = i2 + (j1 - i);
        lemma_subrange_transfer(s, i, s2, i2, n, j1 - i, j1 - i + 10);
        assert(s.subrange(j1, j1 + 10) == lit_set_mid().skip(1));
        assert(s2.subrange(j2, j2 + 10) == lit_set_mid().skip(1));
        assert(spec_match_lit(s2, j2, lit_set_mid().skip(1)));
        lemma_subrange_transfer(s, i, s2, i2, n, j1 - i + 10, m1 - i);
        assert(s.subrange(j1 + 10, i + (m1 - i)) == s.subrange(j1 + 10, m1));
        lemma_body_window(s, j1 + 10, s2, j2 + 10, v, m1);
        let m2 = i2 + (m1 - i);
        lemma_subrange_transfer(s, i, s2, i2, n, m1 - i, m1 - i + 2);
        assert(s.subrange(m1, m1 + 2) == lit_set_close().skip(1));
        assert(s2.subrange(m2, m2 + 2) == lit_set_close().skip(1));
        assert(spec_match_lit(s2, m2, lit_set_close().skip(1)));
        assert(parse_record(s2, i2) == Some((c, i2 + n)));
    } else if spec_match_lit(s, i, lit_remove_open()) {
        let (k, j1) = parse_string_body(s, i + lit_remove_open().len()).unwrap();
        lemma_body_bounds(s, i + 18);
        // the `Set` opening cannot match at `i2` either: the windows agree on
        // the first 15 characters
        if spec_match_lit(s2, i2, lit_set_open()) {
            lemma_subrange_transfer(s, i, s2, i2, n, 0, 15);
            assert(s.subrange(i, i + 15) == lit_set_open());
            assert(spec_match_lit(s, i, lit_set_open()));
            assert(false);
        }
        lemma_subrange_transfer(s, i, s2, i2, n, 0, 18);
        assert(s2.subrange(i2, i2 + 18) == lit_remove_open());
        assert(spec_match_lit(s2, i2, lit_remove_open()));
        lemma_subrange_transfer(s, i, s2, i2, n, 18, j1 - i);
        assert(s.subrange(i + 18, i + (j1 - i)) == s.subrange(i + 18, j1));
        lemma_body_window(s, i + 18, s2, i2 + 18, k, j1);
        let j2 = i2 + (j1 - i);
        lemma_subrange_transfer(s, i, s2, i2, n, j1 - i, j1 - i + 2);
        assert(s.subrange(j1, j1 + 2) == lit_set_close().skip(1));
        assert(s2.subrange(j2, j2 + 2) == lit_set_close().skip(1));
        assert(spec_match_lit(s2, j2, lit_set_close().skip(1)));
        assert(parse_record(s2, i2) == Some((c, i2 + n)));
    }
}

/// Decoding inverts escaping: an escaped string followed by its closing
/// quote decodes to the original string, whatever stands around it.
pub proof fn lemma_parse_esc(x: Seq<char>, s: Seq<char>, y: Seq<char>)
    ensures
        parse_string_body(x + esc(s) + seq!['"'] + y, x.len() as int) == Some(
            (s, x.len() as int + esc(s).len() + 1),
        ),
    decreases s.len(),
{
    let full = x + esc(s) + seq!['"'] + y;
    if s.len() == 0 {
        assert(esc(s) =~= Seq::<char>::empty());
        assert(full[x.len() as int] == '"');
        assert(parse_string_body(full, x.len() as int) == Some(
            (Seq::<char>::empty(), x.len() + 1int),
        ));
    } else {
        let c = s[0];
        let rest = s.skip(1);
        assert(esc(s) == esc_char(c) + esc(rest));
        if c == '"' || c == '\\' {
            let x2 = x + seq!['\\', c];
            assert(full =~= x2 + esc(rest) + seq!['"'] + y);
            lemma_parse_esc(x2, rest, y);
            assert(full[x.len() as int] == '\\');
            assert(full[x.len() + 1int] == c);
            assert(parse_string_body(full, x2.len() as int) == Some(
                (rest, x2.len() as int + esc(rest).len() + 1),
            ));
            assert(seq![c] + rest =~= s);
        } else {
            let x2 = x + seq![c];
            assert(full =~= x2 + esc(rest) + seq!['"'] + y);
            lemma_parse_esc(x2, rest, y);
            assert(full[x.len() as int] == c);
            assert(parse_string_body(full, x2.len() as int) == Some(
                (rest, x2.len() as int + esc(rest).len() + 1),
            ));
            assert(seq![c] + rest =~= s);
        }
    }
}

/// Decoding inverts encoding: the encoded form of a command, wherever it
/// stands, decodes to exactly that command, ending exactly at its end.
#[verifier::rlimit(60)]
pub proof fn lemma_parse_encode(c: SpecCommand, x: Seq<char>, y: Seq<char>)
    ensures
        parse_record(x + spec_encode(c) + y, x.len() as int) == Some(
            (c, x.len() as int + spec_encode(c).len()),
        ),
{
    lemma_lit_facts();
    let full = x + spec_encode(c) + y;
    match c {
        SpecCommand::Put { key, value } => {
            let i = x.len() as int;
            assert(full.subrange(i, i + 15) =~= lit_set_open());
            let x2 = x + lit_set_open();
            let y2 = lit_set_mid().skip(1) + esc(value) + lit_set_close() + y;
            assert(lit_set_mid() =~= seq!['"'] + lit_set_mid().skip(1));
            assert(full =~= x2 + esc(key) + seq!['"'] + y2);
            lemma_parse_esc(x2, key, y2);
            lemma_body_window(
                x2 + esc(key) + seq!['"'] + y2,
                x2.len() as int,
                full,
                x2.len() as int,
                key,
                x2.len() + esc(key).len() + 1int,
            );
            let j = i + 15 + esc(key).len() + 1;
            assert(parse_string_body(full, i + 15) == Some((key, j)));
            assert(full.subrange(j, j + 10) =~= lit_set_mid().skip(1));
            let x3 = x2 + esc(key) + lit_set_mid();
            let y3 = lit_set_close().skip(1) + y;
            assert(lit_set_close() =~= seq!['"'] + lit_set_close().skip(1));
            assert(full =~= x3 + esc(value) + seq!['"'] + y3);
            lemma_parse_esc(x3, value, y3);
            lemma_body_window(
                x3 + esc(value) + seq!['"'] + y3,
                x3.len() as int,
                full,
                x3.len() as int,
                value,
                x3.len() + esc(value).len() + 1int,
            );
            let m = j + 10 + esc(value).len() + 1;
            assert(parse_string_body(full, j + 10) == Some((value, m)));
            assert(full.subrange(m, m + 2) =~= lit_set_close().skip(1));
            assert(m + 2 == x.len() + spec_encode(c).len());
        },
        SpecCommand::Remove { key } => {
            let i = x.len() as int;
            if spec_match_lit(full, i, lit_set_open()) {
                assert(full[i + 2] == lit_set_open()[2]);
                assert(full[i + 2] == lit_remove_open()[2]);
                assert(false);
            }
            assert(full.subrange(i, i + 18) =~= lit_remove_open());
            let x2 = x + lit_remove_open();
            let y2 = lit_set_close().skip(1) + y;
            assert(lit_set_close() =~= seq!['"'] + lit_set_close().skip(1));
            assert(full =~= x2 + esc(key) + seq!['"'] + y2);
            lemma_parse_esc(x2, key, y2);
            lemma_body_window(
                x2 + esc(key) + seq!['"'] + y2,
                x2.len() as int,
                full,
                x2.len() as int,
                key,
                x2.len() + esc(key).len() + 1int,
            );
            let j = i + 18 + esc(key).len() + 1;
            assert(parse_string_body(full, i + 18) == Some((key, j)));
            assert(full.subrange(j, j + 2) =~= lit_set_close().skip(1));
            assert(j + 2 == x.len() + spec_encode(c).len());
        },
    }
}

/// Appending one whole record to a well-formed stream extends the decoded
/// record sequence by exactly that record.
pub proof fn lemma_stream_append(d: Seq<char>, i: int, e: Seq<char>, c: SpecCommand)
    requires
        0 <= i <= d.len(),
        parse_stream(d, i) is Some,
        e.len() > 0,
        parse_record(d + e, d.len() as int) == Some((c, (d + e).len() as int)),
    ensures
        parse_stream(d + e, i) == Some(
            parse_stream(d, i).unwrap() + seq![
                RecAt { cmd: c, start: d.len() as int, end: (d + e).len() as int },
            ],
        ),
    decreases d.len() - i,
{
    let full = d + e;
    if i == d.len() {
        assert(parse_stream(full, full.len() as int) == Some(Seq::<RecAt>::empty()));
        lemma_record_bounds(full, i);
        assert(parse_stream(full, i) == Some(
            seq![RecAt { cmd: c, start: i, end: full.len() as int }] + Seq::<RecAt>::empty(),
        ));
        assert(parse_stream(d, i) == Some(Seq::<RecAt>::empty()));
        assert(seq![RecAt { cmd: c, start: i, end: full.len() as int }] + Seq::<RecAt>::empty()
            =~= parse_stream(d, i).unwrap() + seq![
            RecAt { cmd: c, start: d.len() as int, end: (d + e).len() as int },
        ]);
    } else {
        match parse_record(d, i) {
            None => {
                assert(false);
            },
            Some((c0, j)) => {
                lemma_record_bounds(d, i);
                assert(full.subrange(i, i + (j - i)) =~= d.subrange(i, j));
                lemma_record_window(d, i, full, i, c0, j);
                lemma_stream_append(d, j, e, c);
                assert(parse_stream(full, i) == Some(
                    seq![RecAt { cmd: c0, start: i, end: j }] + parse_stream(full, j).unwrap(),
                ));
                assert(seq![RecAt { cmd: c0, start: i, end: j }] + (parse_stream(d, j).unwrap()
                    + seq![RecAt { cmd: c, start: d.len() as int, end: (d + e).len() as int }])
                    =~= parse_stream(d, i).unwrap() + seq![
                    RecAt { cmd: c, start: d.len() as int, end: (d + e).len() as int },
                ]);
            },
        }
    }
}

/// The tails of the literals that the decoder matches after a closing quote.
proof fn lemma_lit_tails()
    ensures
        lit_set_mid().skip(1) == ",\"value\":\""@,
        lit_set_close().skip(1) == "}}"@,
{
    reveal_strlit("\",\"value\":\"");
    reveal_strlit(",\"value\":\"");
    reveal_strlit("\"}}");
    reveal_strlit("}}");
    assert(lit_set_mid().skip(1) =~= ",\"value\":\""@);
    assert(lit_set_close().skip(1) =~= "}}"@);
}

/// Whether the characters of `lit` stand in `data` at position `start`.
fn match_lit(data: &Vec<char>, start: usize, lit: &str) -> (r: bool)
    requires
        start <= data.len(),
    ensures
        r == spec_match_lit(data@, start as int, lit@),
{
    let n = lit.unicode_len();
    if data.len() - start < n {
        return false;
    }
    let mut k: usize = 0;
    while k < n
        invariant
            start + n <= data.len(),
            k <= n,
            n == lit@.len(),
            data@.subrange(start as int, start + k) == lit@.subrange(0, k as int),
        decreases n - k,
    {
        if data[start + k] != lit.get_char(k) {
            proof {
                if spec_match_lit(data@, start as int, lit@) {
                    assert(data@.subrange(start as int, start + n)[k as int] == lit@[k as int]);
                    assert(false);
                }
            }
            return false;
        }
        proof {
            assert forall|t: int| 0 <= t < k + 1 implies #[trigger] data@.subrange(
                start as int,
                start + k + 1,
            )[t] == lit@.subrange(0, k as int + 1)[t] by {
                if t < k {
                    assert(data@.subrange(start as int, start + k as int)[t] == lit@.subrange(
                        0,
                        k as int,
                    )[t]);
                }
            }
            assert(data@.subrange(start as int, start + k + 1) =~= lit@.subrange(0, k as int + 1));
        }
        k = k + 1;
    }
    proof {
        assert(lit@.subrange(0, n as int) =~= lit@);
    }
    true
}

/// Decodes a quoted string at `start`, just past the opening quote,
/// matching `parse_string_body`.
fn decode_string_body(data: &Vec<char>, start: usize) -> (r: Option<(Vec<char>, usize)>)
    requires
        start <= data.len(),
    ensures
        (match r {
            None => parse_string_body(data@, start as int) is None,
            Some((t, j)) => parse_string_body(data@, start as int) == Some((t@, j as int)),
        }),
{
    let mut i: usize = start;
    let mut acc: Vec<char> = Vec::new();
    while i < data.len()
        invariant
            start <= i <= data.len(),
            ({
                let whole = parse_string_body(data@, start as int);
                match parse_string_body(data@, i as int) {
                    None => whole is None,
                    Some((t, j)) => whole == Some((acc@ + t, j)),
                }
            }),
        decreases data.len() - i,
    {
        let c = data[i];
        if c == '"' {
            proof {
                assert(acc@ + Seq::<char>::empty() =~= acc@);
            }
            return Some((acc, i + 1));
        } else if c == '\\' {
            if i + 1 >= data.len() {
                return None;
            }
            let c2 = data[i + 1];
            if c2 == '"' || c2 == '\\' {
                let ghost acc0 = acc@;
                acc.push(c2);
                proof {
                    match parse_string_body(data@, i + 2) {
                        None => {},
                        Some((t, j)) => {
                            assert(acc0 + (seq![c2] + t) =~= acc@ + t);
                        },
                    }
                }
                i = i + 2;
            } else {
                return None;
            }
        } else {
            let ghost acc0 = acc@;
            acc.push(c);
            proof {
                match parse_string_body(data@, i + 1) {
                    None => {},
                    Some((t, j)) => {
                        assert(acc0 + (seq![c] + t) =~= acc@ + t);
                    },
                }
            }
            i = i + 1;
        }
    }
    None
}

/// Decodes one record at `start`, matching `parse_record`: the command and
/// the position just past the record, or `None` if no record stands there.
pub fn decode_record(data: &Vec<char>, start: usize) -> (r: Option<(Command, usize)>)
    requires
        start <= data.len(),
    ensures
        (match r {
            None => parse_record(data@, start as int) is None,
            Some((c, j)) => parse_record(data@, start as int) == Some((c@, j as int)) && start < j
                <= data.len(),
        }),
{
    proof {
        lemma_lit_facts();
        lemma_lit_tails();
        lemma_record_bounds(data@, start as int);
    }
    if match_lit(data, start, "{\"Set\":{\"key\":\"") {
        match decode_string_body(data, start + 15) {
            None => None,
            Some((k, j)) => {
                proof {
                    lemma_body_bounds(data@, start + 15);
                }
                if match_lit(data, j, ",\"value\":\"") {
                    match decode_string_body(data, j + 10) {
                        None => None,
                        Some((v, m)) => {
                            proof {
                                lemma_body_bounds(data@, j + 10);
                            }
                            if match_lit(data, m, "}}") {
                                let key = chars_to_string(&k);
                                let value = chars_to_string(&v);
                                Some((Command::Put { key, value }, m + 2))
                            } else {
                                None
                            }
                        },
                    }
                } else {
                    None
                }
            },
        }
    } else if match_lit(data, start, "{\"Remove\":{\"key\":\"") {
        match decode_string_body(data, start + 18) {
            None => None,
            Some((k, j)) => {
                proof {
                    lemma_body_bounds(data@, start + 18);
                }
                if match_lit(data, j, "}}") {
                    let key = chars_to_string(&k);
                    Some((Command::Remove { key }, j + 2))
                } else {
                    None
                }
            },
        }
    } else {
        None
    }
}

/// Encodes one command.
pub fn encode(c: &Command) -> (r: Vec<char>)
    ensures
        r@ == spec_encode(c@),
{
    let mut out: Vec<char> = Vec::new();
    match c {
        Command::Put { key, value } => {
            push_str_chars(&mut out, "{\"Set\":{\"key\":\"");
            push_escaped(&mut out, key.as_str());
            push_str_chars(&mut out, "\",\"value\":\"");
            push_escaped(&mut out, value.as_str());
            push_str_chars(&mut out, "\"}}");
            proof {
                assert(out@ =~= spec_encode(c@));
            }
        },
        Command::Remove { key } => {
            push_str_chars(&mut out, "{\"Remove\":{\"key\":\"");
            push_escaped(&mut out, key.as_str());
            push_str_chars(&mut out, "\"}}");
            proof {
                assert(out@ =~= spec_encode(c@));
            }
        },
    }
    out
}

} // verus!
