//! Segment files and their names.
//!
//! A store directory is modelled as a vector of files, each with a name and
//! its characters. A segment of generation `g` is named `<g>.log`, `<g>` the
//! canonical decimal form of `g`; files whose names are not of that shape do
//! not belong to the store and are left untouched.

use vstd::prelude::*;
use vstd::string::StrSliceExecFns;
use crate::text::{chars_to_string, push_str_chars};

verus! {

/// One file of the store directory: its name and its characters.
#[derive(Clone)]
pub struct LogFile {
    pub name: String,
    pub data: Vec<char>,
}

/// The decimal digit character for `d` in `0..10`.
pub open spec fn dec_digit(d: int) -> char {
    if d == 0 {
        '0'
    } else if d == 1 {
        '1'
    } else if d == 2 {
        '2'
    } else if d == 3 {
        '3'
    } else if d == 4 {
        '4'
    } else if d == 5 {
        '5'
    } else if d == 6 {
        '6'
    } else if d == 7 {
        '7'
    } else if d == 8 {
        '8'
    } else {
        '9'
    }
}

/// The value of a decimal digit character, or 10 for any other character.
pub open spec fn digit_val(c: char) -> int {
    if c == '0' {
        0
    } else if c == '1' {
        1
    } else if c == '2' {
        2
    } else if c == '3' {
        3
    } else if c == '4' {
        4
    } else if c == '5' {
        5
    } else if c == '6' {
        6
    } else if c == '7' {
        7
    } else if c == '8' {
        8
    } else if c == '9' {
        9
    } else {
        10
    }
}

/// Whether `c` is a decimal digit.
pub open spec fn is_digit(c: char) -> bool {
    digit_val(c) < 10
}

/// The canonical decimal form of a nonnegative number.
pub open spec fn dec_chars(n: int) -> Seq<char>
    decreases n
    when n >= 0
{
    if n < 10 {
        seq![dec_digit(n)]
    } else {
        dec_chars(n / 10).push(dec_digit(n % 10))
    }
}

/// The value of a digit string, most significant digit first.
pub open spec fn digits_val(s: Seq<char>) -> int
    decreases s.len(),
{
    if s.len() == 0 {
        0
    } else {
        digits_val(s.drop_last()) * 10 + digit_val(s.last())
    }
}

/// A canonical digit string: nonempty, digits only, no leading zero unless
/// it is exactly "0".
pub open spec fn canon_digits(s: Seq<char>) -> bool {
    &&& s.len() > 0
    &&& forall|i: int| 0 <= i < s.len() ==> is_digit(#[trigger] s[i])
    &&& (s[0] != '0' || s.len() == 1)
}

/// The decimal form of a number is a canonical digit string with that value.
pub proof fn lemma_dec_chars_canon(n: int)
    requires
        n >= 0,
    ensures
        canon_digits(dec_chars(n)),
        digits_val(dec_chars(n)) == n,
    decreases n,
{
    if n < 10 {
        let s = dec_chars(n);
        assert(s.len() == 1);
        assert(s[0] == dec_digit(n));
        assert(digit_val(dec_digit(n)) == n);
        assert forall|i: int| 0 <= i < s.len() implies is_digit(#[trigger] s[i]) by {
            assert(s[i] == s[0]);
        }
        assert(s.drop_last() =~= Seq::<char>::empty());
        assert(digits_val(Seq::<char>::empty()) == 0);
        assert(s.last() == s[0]);
        assert(digits_val(s) == n);
    } else {
        lemma_dec_chars_canon(n / 10);
        let p = dec_chars(n / 10);
        let s = dec_chars(n);
        assert(s == p.push(dec_digit(n % 10)));
        assert(s.drop_last() =~= p);
        assert(s.last() == dec_digit(n % 10));
        assert forall|i: int| 0 <= i < s.len() implies is_digit(#[trigger] s[i]) by {
            if i < p.len() {
                assert(s[i] == p[i]);
            }
        }
        assert(s[0] == p[0]);
        if s[0] == '0' {
            // the prefix would be canonical with value 0, yet its value is
            // n / 10 >= 1
            assert(p.len() == 1);
            assert(p.drop_last() =~= Seq::<char>::empty());
            assert(digits_val(Seq::<char>::empty()) == 0);
            assert(p.last() == p[0]);
            assert(digits_val(p) == 0);
            assert(n / 10 >= 1);
            assert(false);
        }
        assert(digit_val(dec_digit(n % 10)) == n % 10);
        assert(digits_val(s) == (n / 10) * 10 + n % 10);
        assert((n / 10) * 10 + n % 10 == n) by (nonlinear_arith)
            requires
                n >= 0,
        ;
    }
}

/// A canonical digit string is the decimal form of its value.
pub proof fn lemma_canon_digits_dec(s: Seq<char>)
    requires
        canon_digits(s),
    ensures
        digits_val(s) >= 0,
        dec_chars(digits_val(s)) == s,
    decreases s.len(),
{
    let v = digits_val(s);
    if s.len() == 1 {
        assert(s.drop_last() =~= Seq::<char>::empty());
        assert(digits_val(Seq::<char>::empty()) == 0);
        assert(s.last() == s[0]);
        assert(v == digit_val(s[0]));
        assert(is_digit(s[0]));
        assert(dec_digit(digit_val(s[0])) == s[0]);
        assert(dec_chars(v) =~= s);
    } else {
        let p = s.drop_last();
        let d = digit_val(s.last());
        assert(p[0] == s[0]);
        assert forall|i: int| 0 <= i < p.len() implies is_digit(#[trigger] p[i]) by {
            assert(p[i] == s[i]);
        }
        assert(canon_digits(p));
        lemma_canon_digits_dec(p);
        let pv = digits_val(p);
        // no leading zero and length at least two, so the prefix value is
        // positive
        if pv == 0 {
            assert(dec_chars(0) == seq![dec_digit(0)]);
            assert(p[0] == '0');
            assert(false);
        }
        assert(v == pv * 10 + d);
        assert(v / 10 == pv && v % 10 == d && v >= 10) by (nonlinear_arith)
            requires
                pv >= 1,
                0 <= d < 10,
                v == pv * 10 + d,
        ;
        assert(dec_chars(v) == dec_chars(pv).push(dec_digit(d)));
        assert(dec_digit(digit_val(s.last())) == s.last());
        assert(dec_chars(v) =~= s);
    }
}

/// The name of the segment file for generation `g`.
pub open spec fn gen_name(g: u64) -> Seq<char> {
    dec_chars(g as int) + ".log"@
}

/// The generation a file name denotes, if any. Only canonical names count:
/// the decimal form of a generation below `u64::MAX - 1`, followed by
/// `.log`; the highest numbers stay free so that a fresh active and a fresh
/// compaction generation can always be named.
pub open spec fn parse_gen_name(name: Seq<char>) -> Option<u64> {
    if exists|g: u64| g < u64::MAX - 2 && name == gen_name(g) {
        Some(choose|g: u64| g < u64::MAX - 2 && name == gen_name(g))
    } else {
        None
    }
}

/// Naming is injective, so a canonical name denotes one generation.
pub proof fn lemma_gen_name_injective(g1: u64, g2: u64)
    requires
        gen_name(g1) == gen_name(g2),
    ensures
        g1 == g2,
{
    lemma_dec_chars_canon(g1 as int);
    lemma_dec_chars_canon(g2 as int);
    let d1 = dec_chars(g1 as int);
    let d2 = dec_chars(g2 as int);
    assert((d1 + ".log"@).len() == (d2 + ".log"@).len());
    assert(d1.len() == d2.len());
    assert forall|i: int| 0 <= i < d1.len() implies d1[i] == d2[i] by {
        assert(gen_name(g1)[i] == d1[i]);
        assert(gen_name(g2)[i] == d2[i]);
    }
    assert(d1 =~= d2);
    assert(digits_val(d1) == digits_val(d2));
}

/// Parsing inverts naming for every generation below `u64::MAX`.
pub proof fn lemma_parse_gen_name(g: u64)
    requires
        g < u64::MAX - 2,
    ensures
        parse_gen_name(gen_name(g)) == Some(g),
{
    let name = gen_name(g);
    assert(exists|x: u64| x < u64::MAX - 2 && name == gen_name(x)) by {
        assert(g < u64::MAX - 2 && name == gen_name(g));
    }
    let w = choose|x: u64| x < u64::MAX - 2 && name == gen_name(x);
    lemma_gen_name_injective(w, g);
}

/// The canonical decimal characters of `n`.
fn dec_chars_exec(n: u64) -> (r: Vec<char>)
    ensures
        r@ == dec_chars(n as int),
    decreases n,
{
    let d: char = match n % 10 {
        0 => '0',
        1 => '1',
        2 => '2',
        3 => '3',
        4 => '4',
        5 => '5',
        6 => '6',
        7 => '7',
        8 => '8',
        _ => '9',
    };
    proof {
        assert(d == dec_digit(n as int % 10));
    }
    if n < 10 {
        let mut r: Vec<char> = Vec::new();
        r.push(d);
        proof {
            assert(r@ =~= dec_chars(n as int));
        }
        r
    } else {
        let mut r = dec_chars_exec(n / 10);
        r.push(d);
        proof {
            assert(n as int / 10 == (n / 10) as int);
            assert(r@ =~= dec_chars(n as int));
        }
        r
    }
}

/// The file name of generation `gen`: its decimal form followed by `.log`.
pub fn log_path(gen: u64) -> (r: String)
    ensures
        r@ == gen_name(gen),
{
    let mut cs = dec_chars_exec(gen);
    push_str_chars(&mut cs, ".log");
    let r = chars_to_string(&cs);
    proof {
        assert(r@ =~= gen_name(gen));
    }
    r
}

/// The value of `c` as a decimal digit, or 10.
fn digit_val_exec(c: char) -> (r: u32)
    ensures
        r == digit_val(c),
{
    match c {
        '0' => 0,
        '1' => 1,
        '2' => 2,
        '3' => 3,
        '4' => 4,
        '5' => 5,
        '6' => 6,
        '7' => 7,
        '8' => 8,
        '9' => 9,
        _ => 10,
    }
}

/// Digit strings have nonnegative values that only grow as digits are
/// appended.
proof fn lemma_digits_val_grows(s: Seq<char>, i: int)
    requires
        0 <= i <= s.len(),
        forall|k: int| 0 <= k < s.len() ==> is_digit(#[trigger] s[k]),
    ensures
        digits_val(s.take(i)) >= 0,
        digits_val(s) >= digits_val(s.take(i)),
    decreases s.len() - i,
{
    if i == s.len() {
        assert(s.take(i) =~= s);
        lemma_digits_val_nonneg(s);
    } else {
        lemma_digits_val_grows(s, i + 1);
        let p = s.take(i);
        let q = s.take(i + 1);
        assert(q.drop_last() =~= p);
        assert(q.last() == s[i]);
        lemma_digits_val_nonneg(p);
        assert(digits_val(q) == digits_val(p) * 10 + digit_val(s[i]));
        assert(digits_val(q) >= digits_val(p)) by (nonlinear_arith)
            requires
                digits_val(p) >= 0,
                digit_val(s[i]) >= 0,
                digits_val(q) == digits_val(p) * 10 + digit_val(s[i]),
        ;
    }
}

proof fn lemma_digits_val_nonneg(s: Seq<char>)
    requires
        forall|k: int| 0 <= k < s.len() ==> is_digit(#[trigger] s[k]),
    ensures
        digits_val(s) >= 0,
    decreases s.len(),
{
    if s.len() > 0 {
        let p = s.drop_last();
        assert(forall|k: int| 0 <= k < p.len() ==> is_digit(#[trigger] p[k])) by {
            assert(forall|k: int| 0 <= k < p.len() ==> p[k] == s[k]);
        }
        lemma_digits_val_nonneg(p);
        assert(digits_val(s) >= 0) by (nonlinear_arith)
            requires
                digits_val(p) >= 0,
                digit_val(s.last()) >= 0,
                digits_val(s) == digits_val(p) * 10 + digit_val(s.last()),
        ;
    }
}

/// The generation that the file name `name` denotes, if any.
pub fn parse_gen(name: &str) -> (r: Option<u64>)
    ensures
        r == parse_gen_name(name@),
{
    let n = name.unicode_len();
    if n < 5 {
        proof {
            if parse_gen_name(name@) is Some {
                let g = choose|g: u64| g < u64::MAX - 2 && name@ == gen_name(g);
                lemma_dec_chars_canon(g as int);
                reveal_strlit(".log");
                assert(name@.len() >= 5);
            }
        }
        return None;
    }
    let digits_len = n - 4;
    proof {
        reveal_strlit(".log");
    }
    // the name must end in `.log`
    let mut k: usize = 0;
    let suffix = ".log";
    while k < 4
        invariant
            k <= 4,
            n == name@.len(),
            n >= 5,
            digits_len == n - 4,
            suffix@ == ".log"@,
            ".log"@.len() == 4,
            forall|t: int| 0 <= t < k ==> name@[digits_len + t] == ".log"@[t],
        decreases 4 - k,
    {
        if name.get_char(digits_len + k) != suffix.get_char(k) {
            proof {
                if parse_gen_name(name@) is Some {
                    let g = choose|g: u64| g < u64::MAX - 2 && name@ == gen_name(g);
                    lemma_dec_chars_canon(g as int);
                    let d = dec_chars(g as int);
                    assert(d.len() == digits_len);
                    assert(name@[digits_len + k] == ".log"@[k as int]);
                    assert(false);
                }
            }
            return None;
        }
        k = k + 1;
    }
    // the rest must be a canonical digit string with value below u64::MAX
    let mut i: usize = 0;
    let mut val: u64 = 0;
    while i < digits_len
        invariant
            i <= digits_len,
            digits_len == n - 4,
            n == name@.len(),
            n >= 5,
            ".log"@.len() == 4,
            forall|t: int| 0 <= t < 4 ==> name@[digits_len + t] == ".log"@[t],
            forall|t: int| 0 <= t < i ==> is_digit(#[trigger] name@[t]),
            val == digits_val(name@.subrange(0, digits_len as int).take(i as int)),
            i > 0 ==> (name@[0] != '0' || digits_len == 1),
        decreases digits_len - i,
    {
        let c = name.get_char(i);
        let d = digit_val_exec(c);
        if d >= 10 {
            proof {
                assert(name@.subrange(0, digits_len as int)[i as int] == name@[i as int]);
                assert(!canon_digits(name@.subrange(0, digits_len as int)));
                lemma_reject(name@, digits_len as int);
            }
            return None;
        }
        if i == 0 && c == '0' && digits_len > 1 {
            proof {
                let ds = name@.subrange(0, digits_len as int);
                assert(ds[0] == name@[0]);
                assert(!canon_digits(ds));
                lemma_reject(name@, digits_len as int);
            }
            return None;
        }
        let next = match val.checked_mul(10) {
            Some(m) => m.checked_add(d as u64),
            None => None,
        };
        match next {
            None => {
                proof {
                    let ds = name@.subrange(0, digits_len as int);
                    assert(ds[i as int] == name@[i as int]);
                    assert(val == digits_val(ds.take(i as int)));
                    assert(digits_val(ds.take(i as int)) * 10 + digit_val(name@[i as int])
                        > u64::MAX);
                    lemma_overflow(name@, digits_len as int, i as int);
                }
                return None;
            },
            Some(v) => {
                proof {
                    let ds = name@.subrange(0, digits_len as int);
                    assert(ds.take(i + 1).drop_last() =~= ds.take(i as int));
                    assert(ds.take(i + 1).last() == name@[i as int]);
                }
                val = v;
            },
        }
        i = i + 1;
    }
    if val >= u64::MAX - 2 {
        proof {
            let ds = name@.subrange(0, digits_len as int);
            assert(ds.take(digits_len as int) =~= ds);
            lemma_overflow(name@, digits_len as int, digits_len as int);
        }
        return None;
    }
    proof {
        let ds = name@.subrange(0, digits_len as int);
        assert(ds.take(digits_len as int) =~= ds);
        assert(forall|t: int| 0 <= t < ds.len() ==> ds[t] == name@[t]);
        assert(canon_digits(ds));
        lemma_canon_digits_dec(ds);
        assert(dec_chars(val as int) == ds);
        assert(name@ =~= ds + ".log"@);
        assert(name@ == gen_name(val));
        lemma_parse_gen_name(val);
    }
    Some(val)
}

/// If some character of the digit part is not a digit, or a leading zero
/// stands before further digits, the name is not canonical.
proof fn lemma_reject(name: Seq<char>, digits_len: int)
    requires
        digits_len >= 1,
        name.len() == digits_len + 4,
        !canon_digits(name.subrange(0, digits_len)),
    ensures
        parse_gen_name(name) is None,
{
    if parse_gen_name(name) is Some {
        let g = choose|g: u64| g < u64::MAX - 2 && name == gen_name(g);
        lemma_dec_chars_canon(g as int);
        reveal_strlit(".log");
        let d = dec_chars(g as int);
        assert(d.len() == digits_len);
        assert forall|t: int| 0 <= t < digits_len implies name.subrange(0, digits_len)[t]
            == d[t] by {
            assert(name[t] == d[t]);
        }
        assert(name.subrange(0, digits_len) =~= d);
        assert(false);
    }
}

/// If the digit part's value reaches `u64::MAX` already on a prefix, the
/// name denotes no generation below `u64::MAX`.
proof fn lemma_overflow(name: Seq<char>, digits_len: int, i: int)
    requires
        digits_len >= 1,
        0 <= i <= digits_len,
        name.len() == digits_len + 4,
        forall|t: int| 0 <= t < i ==> is_digit(#[trigger] name[t]),
        ({
            let ds = name.subrange(0, digits_len);
            (i < digits_len && digits_val(ds.take(i)) * 10 + digit_val(name[i]) > u64::MAX) || (i
                == digits_len && digits_val(ds.take(i)) >= u64::MAX - 2)
        }),
    ensures
        parse_gen_name(name) is None,
{
    if parse_gen_name(name) is Some {
        let g = choose|g: u64| g < u64::MAX - 2 && name == gen_name(g);
        lemma_dec_chars_canon(g as int);
        reveal_strlit(".log");
        let d = dec_chars(g as int);
        assert(d.len() == digits_len);
        let ds = name.subrange(0, digits_len);
        assert forall|t: int| 0 <= t < digits_len implies ds[t] == d[t] by {
            assert(name[t] == d[t]);
        }
        assert(ds =~= d);
        if i < digits_len {
            // one more digit already exceeds the range
            let q = ds.take(i + 1);
            assert(q.drop_last() =~= ds.take(i));
            assert(q.last() == ds[i]);
            assert(ds[i] == name[i]);
            lemma_digits_val_grows(ds, i + 1);
            assert(digits_val(q) == digits_val(ds.take(i)) * 10 + digit_val(name[i]));
            assert(digits_val(ds) >= digits_val(q));
            assert(g as int == digits_val(ds));
            assert(false);
        } else {
            assert(ds.take(i) =~= ds);
            assert(g as int == digits_val(ds));
            assert(false);
        }
    }
}

/// Whether file `i` of `files` is the segment of generation `g`.
pub open spec fn has_gen(files: Seq<LogFile>, i: int, g: u64) -> bool {
    &&& 0 <= i < files.len()
    &&& parse_gen_name(files[i].name@) == Some(g)
}

/// The index of the segment file of generation `g`, if one exists.
pub open spec fn find_log_file(files: Seq<LogFile>, g: u64) -> Option<int> {
    if exists|i: int| has_gen(files, i, g) {
        Some(choose|i: int| has_gen(files, i, g))
    } else {
        None
    }
}

/// No two files are segments of the same generation.
pub open spec fn distinct_gens(files: Seq<LogFile>) -> bool {
    forall|i: int, j: int, g: u64| has_gen(files, i, g) && has_gen(files, j, g) ==> i == j
}

/// Under distinctness, the found index is the only one with that generation.
pub proof fn lemma_find_log_file(files: Seq<LogFile>, i: int, g: u64)
    requires
        distinct_gens(files),
        has_gen(files, i, g),
    ensures
        find_log_file(files, g) == Some(i),
{
    let w = choose|i: int| has_gen(files, i, g);
    assert(has_gen(files, w, g));
}

/// Finds the segment file of generation `g`.
pub fn find_file(files: &Vec<LogFile>, g: u64) -> (r: Option<usize>)
    requires
        distinct_gens(files@),
    ensures
        (match r {
            Some(i) => i < files.len() && find_log_file(files@, g) == Some(i as int),
            None => find_log_file(files@, g) is None,
        }),
{
    let mut i: usize = 0;
    while i < files.len()
        invariant
            i <= files.len(),
            distinct_gens(files@),
            forall|t: int| 0 <= t < i ==> !has_gen(files@, t, g),
        decreases files.len() - i,
    {
        let p = parse_gen(files[i].name.as_str());
        match p {
            Some(pg) => {
                if pg == g {
                    proof {
                        lemma_find_log_file(files@, i as int, g);
                    }
                    return Some(i);
                }
            },
            None => {},
        }
        i = i + 1;
    }
    proof {
        if exists|t: int| has_gen(files@, t, g) {
            let t = choose|t: int| has_gen(files@, t, g);
            assert(false);
        }
    }
    None
}

/// The bytes of all segment files in `files`; foreign files do not count.
pub open spec fn total_log_size(files: Seq<LogFile>) -> int
    decreases files.len(),
{
    if files.len() == 0 {
        0
    } else {
        (if parse_gen_name(files[0].name@) is Some {
            files[0].data@.len() as int
        } else {
            0
        }) + total_log_size(files.drop_first())
    }
}

/// Weakly sorted ascending.
pub open spec fn sorted_u64(s: Seq<u64>) -> bool {
    forall|a: int, b: int| 0 <= a < b < s.len() ==> s[a] <= s[b]
}

/// Sorts generation numbers ascending.
fn sort_gens(v: Vec<u64>) -> (r: Vec<u64>)
    ensures
        sorted_u64(r@),
        r@.to_multiset() == v@.to_multiset(),
{
    broadcast use vstd::seq_lib::group_to_multiset_ensures;

    let mut r: Vec<u64> = Vec::new();
    let mut i: usize = 0;
    proof {
        assert(v@.take(0) =~= Seq::<u64>::empty());
    }
    while i < v.len()
        invariant
            i <= v.len(),
            sorted_u64(r@),
            r@.to_multiset() == v@.take(i as int).to_multiset(),
        decreases v.len() - i,
    {
        let x = v[i];
        let mut pos: usize = 0;
        while pos < r.len() && r[pos] <= x
            invariant
                pos <= r.len(),
                forall|t: int| 0 <= t < pos ==> r@[t] <= x,
            decreases r.len() - pos,
        {
            pos = pos + 1;
        }
        let ghost r0 = r@;
        r.insert(pos, x);
        proof {
            assert(r@ =~= r0.insert(pos as int, x));
            lemma_insert_multiset(r0, pos as int, x);
            assert(v@.take(i + 1) =~= v@.take(i as int).push(x));
            assert(v@.take(i + 1).to_multiset() == v@.take(i as int).push(x).to_multiset());
            v@.take(i as int).to_multiset_ensures();
            assert(v@.take(i as int).push(x).to_multiset() =~= v@.take(
                i as int,
            ).to_multiset().insert(x));
            assert forall|a: int, b: int| 0 <= a < b < r@.len() implies r@[a] <= r@[b] by {
                assert(sorted_u64(r0));
                if b < pos {
                    assert(r@[a] == r0[a] && r@[b] == r0[b]);
                } else if a > pos {
                    assert(r@[a] == r0[a - 1] && r@[b] == r0[b - 1]);
                } else if a == pos {
                    assert(r@[a] == x && r@[b] == r0[b - 1]);
                    assert(pos < r0.len() + 1);
                    assert(b - 1 >= pos);
                    // r0[pos] > x or pos was the end
                    if pos < r0.len() {
                        assert(!(r0[pos as int] <= x));
                        assert(r0[pos as int] <= r0[b - 1] || pos as int == b - 1);
                    } else {
                        assert(false);
                    }
                } else if b == pos {
                    assert(r@[b] == x && r@[a] == r0[a]);
                    assert(r0[a] <= x);
                } else {
                    assert(a < pos && b > pos);
                    assert(r@[a] == r0[a] && r@[b] == r0[b - 1]);
                    assert(r0[a] <= x);
                    if pos < r0.len() {
                        assert(!(r0[pos as int] <= x));
                        assert(r0[pos as int] <= r0[b - 1] || pos as int == b - 1);
                    }
                    assert(r@[a] <= r@[b]);
                }
            }
        }
        i = i + 1;
    }
    proof {
        assert(v@.take(v@.len() as int) =~= v@);
    }
    r
}

/// Inserting into a sequence adds one occurrence to its multiset.
proof fn lemma_insert_multiset(s: Seq<u64>, pos: int, x: u64)
    requires
        0 <= pos <= s.len(),
    ensures
        s.insert(pos, x).to_multiset() == s.to_multiset().insert(x),
    decreases s.len() - pos,
{
    broadcast use vstd::seq_lib::group_to_multiset_ensures;

    broadcast use vstd::multiset::group_multiset_axioms;

    if pos == s.len() {
        assert(s.insert(pos, x) =~= s.push(x));
        assert(s.push(x).to_multiset() =~= s.to_multiset().insert(x));
    } else {
        // removing the inserted element at its index gives the sequence back
        let t = s.insert(pos, x);
        assert(t.remove(pos) =~= s);
        assert(t.remove(pos).to_multiset() =~= t.to_multiset().remove(t[pos]));
        assert(t[pos] == x);
        assert(t.to_multiset().contains(x)) by {
            assert(t.contains(x)) by {
                assert(t[pos] == x);
            }
        }
        assert(s.to_multiset().insert(x) =~= t.to_multiset());
    }
}

/// Some file before `upto` is the segment of generation `g`.
pub open spec fn gen_witnessed(files: Seq<LogFile>, upto: int, g: u64) -> bool {
    exists|fi: int| fi < upto && has_gen(files, fi, g)
}

/// The sorted list of the generations present in `files`.
///
/// Under distinct generations the result is strictly ascending and holds a
/// generation exactly when its segment file is present.
pub fn sorted_gen_list(files: &Vec<LogFile>) -> (r: Vec<u64>)
    requires
        distinct_gens(files@),
    ensures
        sorted_u64(r@),
        forall|g: u64| r@.contains(g) <==> find_log_file(files@, g) is Some,
        forall|a: int, b: int| 0 <= a < b < r@.len() ==> r@[a] < r@[b],
    decreases files.len(),
{
    broadcast use vstd::seq_lib::group_to_multiset_ensures;

    let mut gens: Vec<u64> = Vec::new();
    let mut i: usize = 0;
    while i < files.len()
        invariant
            i <= files.len(),
            distinct_gens(files@),
            forall|a: int| 0 <= a < gens@.len() ==> gen_witnessed(files@, i as int, #[trigger] gens@[a]),
            forall|fi: int, g: u64| 0 <= fi < i && has_gen(files@, fi, g) ==> gens@.contains(g),
            forall|a: int, b: int| 0 <= a < b < gens@.len() ==> gens@[a] != gens@[b],
        decreases files.len() - i,
    {
        let p = parse_gen(files[i].name.as_str());
        match p {
            Some(g) => {
                proof {
                    assert(has_gen(files@, i as int, g));
                    if gens@.contains(g) {
                        let a = choose|a: int| 0 <= a < gens@.len() && gens@[a] == g;
                        assert(gen_witnessed(files@, i as int, gens@[a]));
                        let fi = choose|fi: int| fi < i && has_gen(files@, fi, gens@[a]);
                        assert(false);
                    }
                }
                let ghost gens0 = gens@;
                gens.push(g);
                proof {
                    assert forall|a: int|
                        0 <= a < gens@.len() implies gen_witnessed(
                        files@,
                        i + 1,
                        #[trigger] gens@[a],
                    ) by {
                        if a < gens0.len() {
                            assert(gens@[a] == gens0[a]);
                            assert(gen_witnessed(files@, i as int, gens0[a]));
                            let fi = choose|fi: int| fi < i && has_gen(files@, fi, gens0[a]);
                            assert(fi < i + 1 && has_gen(files@, fi, gens@[a]));
                        } else {
                            assert(gens@[a] == g);
                            assert((i as int) < i + 1 && has_gen(files@, i as int, g));
                        }
                    }
                    assert forall|fi: int, g2: u64|
                        0 <= fi < i + 1 && has_gen(files@, fi, g2) implies gens@.contains(g2) by {
                        if fi < i {
                            assert(gens0.contains(g2));
                            let a = choose|a: int| 0 <= a < gens0.len() && gens0[a] == g2;
                            assert(gens@[a] == g2);
                        } else {
                            assert(g2 == g);
                            assert(gens@[gens0.len() as int] == g);
                        }
                    }
                }
            },
            None => {
                proof {
                    assert forall|a: int|
                        0 <= a < gens@.len() implies gen_witnessed(
                        files@,
                        i + 1,
                        #[trigger] gens@[a],
                    ) by {
                        assert(gen_witnessed(files@, i as int, gens@[a]));
                        let fi = choose|fi: int| fi < i && has_gen(files@, fi, gens@[a]);
                        assert(fi < i + 1 && has_gen(files@, fi, gens@[a]));
                    }
                    assert forall|fi: int, g2: u64|
                        0 <= fi < i + 1 && has_gen(files@, fi, g2) implies gens@.contains(g2) by {
                        if fi == i {
                            assert(parse_gen_name(files@[fi].name@) is None);
                        }
                    }
                }
            },
        }
        i = i + 1;
    }
    let ghost gensv = gens@;
    let r = sort_gens(gens);
    proof {
        assert forall|g: u64| r@.contains(g) <==> find_log_file(files@, g) is Some by {
            assert(r@.contains(g) <==> r@.to_multiset().count(g) > 0);
            assert(gensv.contains(g) <==> gensv.to_multiset().count(g) > 0);
            if gensv.contains(g) {
                let a = choose|a: int| 0 <= a < gensv.len() && gensv[a] == g;
                assert(gen_witnessed(files@, files@.len() as int, gensv[a]));
                let fi = choose|fi: int| fi < files@.len() && has_gen(files@, fi, gensv[a]);
                assert(has_gen(files@, fi, g));
                lemma_find_log_file(files@, fi, g);
            }
            if find_log_file(files@, g) is Some {
                let fi = choose|fi: int| has_gen(files@, fi, g);
                assert(gensv.contains(g));
            }
        }
        assert forall|a: int, b: int| 0 <= a < b < r@.len() implies r@[a] < r@[b] by {
            assert(r@[a] <= r@[b]);
            if r@[a] == r@[b] {
                lemma_dup_count(r@, a, b);
                assert(r@.to_multiset().count(r@[a]) >= 2);
                assert(gensv.to_multiset().count(r@[a]) >= 2);
                lemma_distinct_count(gensv, r@[a]);
                assert(false);
            }
        }
    }
    r
}

/// A value standing at two indices counts at least twice in the multiset.
proof fn lemma_dup_count(s: Seq<u64>, a: int, b: int)
    requires
        0 <= a < b < s.len(),
        s[a] == s[b],
    ensures
        s.to_multiset().count(s[a]) >= 2,
{
    broadcast use vstd::seq_lib::group_to_multiset_ensures;

    let t = s.remove(a);
    assert(t.to_multiset() =~= s.to_multiset().remove(s[a]));
    assert(t[b - 1] == s[b]);
    assert(t.contains(s[a])) by {
        assert(t[b - 1] == s[a]);
    }
    assert(t.to_multiset().count(s[a]) > 0);
}

/// In a pairwise-distinct sequence every value counts at most once.
proof fn lemma_distinct_count(s: Seq<u64>, g: u64)
    requires
        forall|a: int, b: int| 0 <= a < b < s.len() ==> s[a] != s[b],
    ensures
        s.to_multiset().count(g) <= 1,
{
    broadcast use vstd::seq_lib::group_to_multiset_ensures;
    broadcast use vstd::multiset::group_multiset_axioms;

    assert(s.no_duplicates());
    s.lemma_multiset_has_no_duplicates();
    if s.to_multiset().count(g) > 1 {
        assert(s.to_multiset().contains(g));
        assert(false);
    }
}

/// Every generation present leaves headroom for fresh active and
/// compaction generations above it. Holds of any directory the engine
/// itself produces until astronomically many compactions have run.
pub open spec fn gens_bounded(files: Seq<LogFile>) -> bool {
    forall|i: int, g: u64| has_gen(files, i, g) ==> g < u64::MAX - 8
}

/// A generation with a segment file is nameable, hence below the cap.
pub proof fn lemma_gen_bound(files: Seq<LogFile>, g: u64)
    requires
        find_log_file(files, g) is Some,
    ensures
        g < u64::MAX - 2,
{
    let i = choose|i: int| has_gen(files, i, g);
    assert(has_gen(files, i, g));
    assert(parse_gen_name(files[i].name@) == Some(g));
    let w = choose|w: u64| w < u64::MAX - 2 && files[i].name@ == gen_name(w);
}

/// Two directories with the same file names in the same order find every
/// generation at the same index.
pub proof fn lemma_find_same_names(files: Seq<LogFile>, files2: Seq<LogFile>)
    requires
        distinct_gens(files),
        files2.len() == files.len(),
        forall|i: int| 0 <= i < files.len() ==> files2[i].name@ == files[i].name@,
    ensures
        distinct_gens(files2),
        forall|h: u64| #[trigger] find_log_file(files2, h) == find_log_file(files, h),
{
    assert forall|i: int, h: u64| true implies (has_gen(files2, i, h) <==> has_gen(
        files,
        i,
        h,
    )) by {
        if 0 <= i < files.len() {
            assert(files2[i].name@ == files[i].name@);
        }
    }
    assert forall|h: u64| true implies #[trigger] find_log_file(files2, h) == find_log_file(
        files,
        h,
    ) by {
        if exists|i: int| has_gen(files2, i, h) {
            let w2 = choose|i: int| has_gen(files2, i, h);
            assert(has_gen(files, w2, h));
            let w = choose|i: int| has_gen(files, i, h);
            assert(has_gen(files2, w, h));
            assert(w == w2);
        } else {
            if exists|i: int| has_gen(files, i, h) {
                let w = choose|i: int| has_gen(files, i, h);
                assert(has_gen(files2, w, h));
                assert(false);
            }
        }
    }
}

/// Appending a file of a fresh generation leaves every other lookup as it
/// was.
pub proof fn lemma_find_extend(files: Seq<LogFile>, f: LogFile, h: u64)
    requires
        distinct_gens(files.push(f)),
        parse_gen_name(f.name@) != Some(h),
    ensures
        find_log_file(files.push(f), h) == find_log_file(files, h),
{
    let files2 = files.push(f);
    assert forall|i: int| 0 <= i < files.len() implies (has_gen(files2, i, h) <==> has_gen(
        files,
        i,
        h,
    )) by {
        assert(files2[i] == files[i]);
    }
    if exists|i: int| has_gen(files2, i, h) {
        let w1 = choose|i: int| has_gen(files2, i, h);
        assert(w1 < files.len()) by {
            if w1 == files.len() {
                assert(files2[w1] == f);
            }
        }
        assert(has_gen(files, w1, h));
        let w2 = choose|i: int| has_gen(files, i, h);
        assert(has_gen(files2, w2, h));
        assert(w1 == w2);
    } else {
        if exists|i: int| has_gen(files, i, h) {
            let w2 = choose|i: int| has_gen(files, i, h);
            assert(has_gen(files2, w2, h));
            assert(false);
        }
    }
}

} // verus!
