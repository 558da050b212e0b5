use vstd::prelude::*;

use vstd::arithmetic::div_mod::{lemma_fundamental_div_mod, lemma_fundamental_div_mod_converse};

use crate::store::{sorted_by_id, wf_task_seq};
use crate::task::{views_of, wf_task, Task, TaskModel};

verus! {

// The store's durable form is one self-describing text: the records of all
// tasks, in identifier order, between brackets. The functions here render
// that text and read it back; the parser accepts exactly the canonical
// renderings, and what it accepts it pins down uniquely.

// ---------------------------------------------------------------------------
// Decimal numbers. The document carries identifiers and creation times as
// plain decimal text: no sign, no leading zero (so every value has exactly
// one rendering).
// ---------------------------------------------------------------------------

/// A decimal digit.
pub open spec fn is_digit(c: char) -> bool {
    c == '0' || c == '1' || c == '2' || c == '3' || c == '4' || c == '5' || c == '6' || c == '7'
        || c == '8' || c == '9'
}

/// The character for one digit value.
pub open spec fn digit_char(d: int) -> char {
    if d == 0 {
        '0'
    } else if d == 1 {
        '1'
    } else if d == 2 {
        '2'
    } else if d == 3 {
        '3'
    } else if d == 4 {
        '4'
    } else if d == 5 {
        '5'
    } else if d == 6 {
        '6'
    } else if d == 7 {
        '7'
    } else if d == 8 {
        '8'
    } else {
        '9'
    }
}

/// The value of one digit character.
pub open spec fn digit_val(c: char) -> nat {
    if c == '0' {
        0
    } else if c == '1' {
        1
    } else if c == '2' {
        2
    } else if c == '3' {
        3
    } else if c == '4' {
        4
    } else if c == '5' {
        5
    } else if c == '6' {
        6
    } else if c == '7' {
        7
    } else if c == '8' {
        8
    } else {
        9
    }
}

/// The canonical decimal rendering of `n`: most significant digit first,
/// no leading zero.
pub open spec fn dec_digits(n: nat) -> Seq<char>
    decreases n,
{
    if n < 10 {
        seq![digit_char(n as int)]
    } else {
        dec_digits(n / 10).push(digit_char((n % 10) as int))
    }
}

/// The number a digit sequence denotes.
pub open spec fn val_of(s: Seq<char>) -> nat
    decreases s.len(),
{
    if s.len() == 0 {
        0
    } else {
        val_of(s.drop_last()) * 10 + digit_val(s.last())
    }
}

/// The rendering of `n` is non-empty, all digits, starts with '0' exactly
/// for 0 itself, and denotes `n` again.
pub proof fn lemma_dec_digits_basic(n: nat)
    ensures
        dec_digits(n).len() >= 1,
        forall|i: int| 0 <= i < dec_digits(n).len() ==> is_digit(#[trigger] dec_digits(n)[i]),
        dec_digits(n)[0] == '0' <==> n == 0,
        n == 0 ==> dec_digits(n).len() == 1,
        val_of(dec_digits(n)) == n,
    decreases n,
{
    if n < 10 {
        let s = dec_digits(n);
        assert(s =~= seq![digit_char(n as int)]);
        assert(s.drop_last() =~= Seq::<char>::empty());
        assert(val_of(s) == val_of(s.drop_last()) * 10 + digit_val(s.last()));
    } else {
        lemma_dec_digits_basic(n / 10);
        let pre = dec_digits(n / 10);
        let s = dec_digits(n);
        assert(s == pre.push(digit_char((n % 10) as int)));
        assert(s.drop_last() =~= pre);
        assert(s.last() == digit_char((n % 10) as int));
        assert(digit_val(digit_char((n % 10) as int)) == n % 10);
        lemma_fundamental_div_mod(n as int, 10);
        assert(val_of(s) == (n / 10) * 10 + n % 10);
        assert(s[0] == pre[0]);
    }
}

/// Appending more text never lowers the denoted value.
pub proof fn lemma_val_of_prefix(p: Seq<char>, q: Seq<char>)
    ensures
        val_of(p) <= val_of(p + q),
    decreases q.len(),
{
    if q.len() == 0 {
        assert(p + q =~= p);
    } else {
        let q1 = q.drop_last();
        assert((p + q).drop_last() =~= p + q1);
        lemma_val_of_prefix(p, q1);
        assert(val_of(p + q) == val_of(p + q1) * 10 + digit_val((p + q).last()));
    }
}

/// A digit sequence that does not start with '0' denotes at least 1.
pub proof fn lemma_val_of_nonzero(s: Seq<char>)
    requires
        s.len() >= 1,
        s[0] != '0',
        is_digit(s[0]),
    ensures
        val_of(s) >= 1,
    decreases s.len(),
{
    if s.len() == 1 {
        assert(val_of(s.drop_last()) == 0);
    } else {
        assert(s.drop_last()[0] == s[0]);
        lemma_val_of_nonzero(s.drop_last());
    }
}

/// A non-empty all-digit sequence without a leading zero is exactly the
/// canonical rendering of its value.
pub proof fn lemma_digits_canonical(s: Seq<char>)
    requires
        s.len() >= 1,
        forall|i: int| 0 <= i < s.len() ==> is_digit(#[trigger] s[i]),
        s[0] == '0' ==> s.len() == 1,
    ensures
        s == dec_digits(val_of(s)),
    decreases s.len(),
{
    if s.len() == 1 {
        assert(val_of(s.drop_last()) == 0);
        assert(val_of(s) == digit_val(s[0]));
        assert(s =~= dec_digits(val_of(s)));
    } else {
        let p = s.drop_last();
        assert(p[0] == s[0]);
        assert(forall|i: int| 0 <= i < p.len() ==> is_digit(#[trigger] p[i]));
        lemma_val_of_nonzero(p);
        lemma_digits_canonical(p);
        let n = val_of(s);
        let v = val_of(p);
        let d = digit_val(s.last());
        assert(n == v * 10 + d);
        lemma_fundamental_div_mod_converse(n as int, 10, v as int, d as int);
        assert(n / 10 == v && n % 10 == d);
        assert(n >= 10);
        assert(digit_char(digit_val(s.last()) as int) == s.last());
        assert(s =~= p.push(s.last()));
        assert(dec_digits(n) == dec_digits(v).push(digit_char(d as int)));
    }
}

/// The character for a digit value, as executable code computes it.
fn digit_to_char(d: u64) -> (c: char)
    requires
        d < 10,
    ensures
        c == digit_char(d as int),
{
    if d == 0 {
        '0'
    } else if d == 1 {
        '1'
    } else if d == 2 {
        '2'
    } else if d == 3 {
        '3'
    } else if d == 4 {
        '4'
    } else if d == 5 {
        '5'
    } else if d == 6 {
        '6'
    } else if d == 7 {
        '7'
    } else if d == 8 {
        '8'
    } else {
        '9'
    }
}

/// The value of a character, if it is a digit.
fn char_digit(c: char) -> (r: Option<u64>)
    ensures
        match r {
            Some(d) => is_digit(c) && d < 10 && d == digit_val(c),
            None => !is_digit(c),
        },
{
    if c == '0' {
        Some(0)
    } else if c == '1' {
        Some(1)
    } else if c == '2' {
        Some(2)
    } else if c == '3' {
        Some(3)
    } else if c == '4' {
        Some(4)
    } else if c == '5' {
        Some(5)
    } else if c == '6' {
        Some(6)
    } else if c == '7' {
        Some(7)
    } else if c == '8' {
        Some(8)
    } else if c == '9' {
        Some(9)
    } else {
        None
    }
}

/// Append the canonical decimal rendering of `n`.
pub(crate) fn push_u64(out: &mut Vec<char>, n: u64)
    ensures
        final(out)@ == old(out)@ + dec_digits(n as nat),
    decreases n,
{
    if n >= 10 {
        push_u64(out, n / 10);
        let c = digit_to_char(n % 10);
        out.push(c);
        proof {
            assert(out@ =~= old(out)@ + dec_digits(n as nat));
        }
    } else {
        let c = digit_to_char(n);
        out.push(c);
        proof {
            assert(dec_digits(n as nat) =~= seq![digit_char(n as int)]);
            assert(out@ =~= old(out)@ + dec_digits(n as nat));
        }
    }
}

/// The canonical rendering of `n` stands at `i`, followed by the end of the
/// document or by something that is not a digit.
pub open spec fn num_at(doc: Seq<char>, i: int, n: u64) -> bool {
    let d = dec_digits(n as nat);
    &&& 0 <= i
    &&& i + d.len() <= doc.len()
    &&& doc.subrange(i, i + d.len()) == d
    &&& (i + d.len() == doc.len() || !is_digit(doc[i + d.len()]))
}

/// At one position the document renders at most one number: renderings are
/// maximal digit runs, so they have the same length, and equal digit runs
/// denote equal values.
pub proof fn lemma_num_at_unique(doc: Seq<char>, i: int, a: u64, b: u64)
    requires
        num_at(doc, i, a),
        num_at(doc, i, b),
    ensures
        a == b,
{
    lemma_dec_digits_basic(a as nat);
    lemma_dec_digits_basic(b as nat);
    let da = dec_digits(a as nat);
    let db = dec_digits(b as nat);
    if da.len() < db.len() {
        assert(is_digit(db[da.len() as int]));
        assert(doc[i + da.len()] == db[da.len() as int]);
        assert(false);
    }
    if db.len() < da.len() {
        assert(is_digit(da[db.len() as int]));
        assert(doc[i + db.len()] == da[db.len() as int]);
        assert(false);
    }
    assert(da =~= db);
}

/// Read one canonical decimal number starting at `i`. Succeeds exactly where
/// some `u64` has its rendering there, and then returns that number and the
/// first position after it.
pub(crate) fn parse_u64(doc: &Vec<char>, i: usize) -> (r: Option<(u64, usize)>)
    requires
        i <= doc@.len(),
    ensures
        match r {
            Some(v) => {
                &&& i < v.1 <= doc@.len()
                &&& num_at(doc@, i as int, v.0)
                &&& v.1 == i + dec_digits(v.0 as nat).len()
            },
            None => forall|n: u64| !num_at(doc@, i as int, n),
        },
{
    let len = doc.len();
    if i == len {
        proof {
            assert forall|n: u64| !num_at(doc@, i as int, n) by {
                lemma_dec_digits_basic(n as nat);
            }
        }
        return None;
    }
    let c0 = doc[i];
    match char_digit(c0) {
        None => {
            proof {
                assert forall|n: u64| !num_at(doc@, i as int, n) by {
                    lemma_dec_digits_basic(n as nat);
                    if num_at(doc@, i as int, n) {
                        assert(doc@[i as int] == dec_digits(n as nat)[0]);
                    }
                }
            }
            return None;
        },
        Some(d0) => {
            if c0 == '0' {
                // A zero is canonical only alone.
                if i + 1 < len {
                    let c1 = doc[i + 1];
                    if char_digit(c1).is_some() {
                        proof {
                            assert forall|n: u64| !num_at(doc@, i as int, n) by {
                                lemma_dec_digits_basic(n as nat);
                                if num_at(doc@, i as int, n) {
                                    assert(doc@[i as int] == dec_digits(n as nat)[0]);
                                    assert(n == 0);
                                    assert(dec_digits(n as nat).len() == 1);
                                }
                            }
                        }
                        return None;
                    }
                }
                proof {
                    assert(dec_digits(0nat) =~= seq![digit_char(0)]);
                    assert(doc@.subrange(i as int, i + 1) =~= dec_digits(0nat));
                    assert(num_at(doc@, i as int, 0u64));
                }
                return Some((0, i + 1));
            }
            // Scan the maximal digit run and its value.
            let mut j: usize = i;
            let mut val: u64 = 0;
            let mut overflow: bool = false;
            loop
                invariant
                    len == doc@.len(),
                    i < len,
                    i <= j <= len,
                    doc@[i as int] == c0,
                    is_digit(c0),
                    c0 != '0',
                    forall|k: int| i <= k < j ==> is_digit(#[trigger] doc@[k]),
                    !overflow ==> val == val_of(doc@.subrange(i as int, j as int)),
                    overflow ==> val_of(doc@.subrange(i as int, j as int)) > u64::MAX,
                    overflow ==> j > i,
                ensures
                    len == doc@.len(),
                    i < j <= len,
                    forall|k: int| i <= k < j ==> is_digit(#[trigger] doc@[k]),
                    !overflow ==> val == val_of(doc@.subrange(i as int, j as int)),
                    overflow ==> val_of(doc@.subrange(i as int, j as int)) > u64::MAX,
                    overflow || j == len || !is_digit(doc@[j as int]),
                decreases len - j,
            {
                if overflow || j == len {
                    break;
                }
                let c = doc[j];
                match char_digit(c) {
                    None => { break; },
                    Some(d) => {
                        proof {
                            assert(doc@.subrange(i as int, j + 1).drop_last() =~= doc@.subrange(
                                i as int,
                                j as int,
                            ));
                            assert(doc@.subrange(i as int, j + 1).last() == doc@[j as int]);
                        }
                        if val > (u64::MAX - d) / 10 {
                            proof {
                                let ext = doc@.subrange(i as int, j + 1);
                                assert(val_of(ext) == val * 10 + d);
                                assert(val * 10 + d > u64::MAX) by (nonlinear_arith)
                                    requires
                                        val > (u64::MAX - d) / 10,
                                        d < 10,
                                ;
                            }
                            overflow = true;
                        } else {
                            val = val * 10 + d;
                        }
                        j = j + 1;
                    },
                }
            }
            // The run ended: either the document did, or a non-digit follows,
            // or the value left `u64`.
            if overflow {
                proof {
                    assert forall|n: u64| !num_at(doc@, i as int, n) by {
                        lemma_dec_digits_basic(n as nat);
                        if num_at(doc@, i as int, n) {
                            let d = dec_digits(n as nat);
                            let dl = d.len() as int;
                            // The consumed run cannot pass the rendering's end.
                            if j > i + dl {
                                assert(is_digit(doc@[i + dl]));
                                assert(d[dl - 1] == doc@.subrange(i as int, i + dl)[dl - 1]);
                                assert(false);
                            }
                            // So the consumed run is a prefix of the rendering.
                            assert(doc@.subrange(i as int, j as int) == d.subrange(
                                0,
                                j - i,
                            )) by {
                                assert(doc@.subrange(i as int, j as int) =~= d.subrange(0, j - i));
                            }
                            assert(d =~= d.subrange(0, j - i) + d.subrange(j - i, dl));
                            lemma_val_of_prefix(d.subrange(0, j - i), d.subrange(j - i, dl));
                            assert(val_of(d) >= val_of(doc@.subrange(i as int, j as int)));
                            assert(false);
                        }
                    }
                }
                return None;
            }
            proof {
                let run = doc@.subrange(i as int, j as int);
                assert(run.len() >= 1);
                assert(run[0] == c0);
                lemma_digits_canonical(run);
                assert(num_at(doc@, i as int, val));
            }
            Some((val, j))
        },
    }
}

// ---------------------------------------------------------------------------
// Text. A description is carried between double quotes; a quote or a
// backslash inside it hides behind a backslash, and every other character
// stands for itself.
// ---------------------------------------------------------------------------

/// How one character appears inside a quoted stretch.
pub open spec fn esc_char(c: char) -> Seq<char> {
    if c == '"' {
        seq!['\\', '"']
    } else if c == '\\' {
        seq!['\\', '\\']
    } else {
        seq![c]
    }
}

/// How a text appears inside a quoted stretch.
pub open spec fn esc(s: Seq<char>) -> Seq<char>
    decreases s.len(),
{
    if s.len() == 0 {
        Seq::empty()
    } else {
        esc_char(s[0]) + esc(s.skip(1))
    }
}

/// Escaping one character alone.
pub proof fn lemma_esc_singleton(c: char)
    ensures
        esc(seq![c]) == esc_char(c),
{
    assert(seq![c].skip(1) =~= Seq::<char>::empty());
    assert(esc(Seq::<char>::empty()) =~= Seq::<char>::empty());
    assert(esc(seq![c]) == esc_char(seq![c][0]) + esc(seq![c].skip(1)));
    assert(esc_char(c) + Seq::<char>::empty() =~= esc_char(c));
}

/// Escaping distributes over concatenation.
pub proof fn lemma_esc_append(a: Seq<char>, b: Seq<char>)
    ensures
        esc(a + b) == esc(a) + esc(b),
    decreases a.len(),
{
    if a.len() == 0 {
        assert(a + b =~= b);
        assert(esc(a) + esc(b) =~= esc(b));
    } else {
        assert((a + b).skip(1) =~= a.skip(1) + b);
        lemma_esc_append(a.skip(1), b);
        assert((a + b)[0] == a[0]);
        assert(esc(a + b) =~= esc(a) + esc(b));
    }
}

/// Append the escaped form of `s`.
pub(crate) fn push_escaped(out: &mut Vec<char>, s: &str)
    ensures
        final(out)@ == old(out)@ + esc(s@),
{
    let n = s.unicode_len();
    let mut i: usize = 0;
    while i < n
        invariant
            n == s@.len(),
            i <= n,
            out@ == old(out)@ + esc(s@.take(i as int)),
        decreases n - i,
    {
        let c = s.get_char(i);
        if c == '"' {
            out.push('\\');
            out.push('"');
        } else if c == '\\' {
            out.push('\\');
            out.push('\\');
        } else {
            out.push(c);
        }
        proof {
            assert(s@.take(i + 1) =~= s@.take(i as int) + seq![s@[i as int]]);
            lemma_esc_append(s@.take(i as int), seq![s@[i as int]]);
            lemma_esc_singleton(s@[i as int]);
            assert(out@ =~= old(out)@ + esc(s@.take(i + 1)));
        }
        i = i + 1;
    }
    proof {
        assert(s@.take(n as int) =~= s@);
    }
}

/// The escaped form of `content` stands at `i`, closed by a quote of its own.
pub open spec fn str_at(doc: Seq<char>, i: int, content: Seq<char>) -> bool {
    let e = esc(content);
    &&& 0 <= i
    &&& i + e.len() + 1 <= doc.len()
    &&& doc.subrange(i, i + e.len()) == e
    &&& doc[i + e.len()] == '"'
}

/// `done` is what the read escapes so far spell: the first characters of
/// `content`.
pub open spec fn prefix_ok(content: Seq<char>, done: Seq<char>) -> bool {
    &&& done.len() <= content.len()
    &&& content.take(done.len() as int) == done
}

/// Read a quoted stretch starting at `i` up to its closing quote, undoing the
/// escapes. Succeeds exactly where some text has its escaped form there, and
/// that text is unique.
pub(crate) fn parse_string(doc: &Vec<char>, i: usize) -> (r: Option<(Vec<char>, usize)>)
    requires
        i <= doc@.len(),
    ensures
        match r {
            Some(v) => {
                &&& i < v.1 <= doc@.len()
                &&& str_at(doc@, i as int, v.0@)
                &&& v.1 == i + esc(v.0@).len() + 1
                &&& forall|content: Seq<char>| str_at(doc@, i as int, content) ==> content == v.0@
            },
            None => forall|content: Seq<char>| !str_at(doc@, i as int, content),
        },
{
    let len = doc.len();
    let mut j: usize = i;
    let mut out: Vec<char> = Vec::new();
    proof {
        assert(doc@.subrange(i as int, i as int) =~= Seq::<char>::empty());
        assert(esc(Seq::<char>::empty()) =~= Seq::<char>::empty());
        assert forall|content: Seq<char>|
            str_at(doc@, i as int, content) implies #[trigger] prefix_ok(
            content,
            Seq::<char>::empty(),
        ) by {
            assert(content.take(0) =~= Seq::<char>::empty());
        }
    }
    loop
        invariant
            len == doc@.len(),
            i <= j <= len,
            doc@.subrange(i as int, j as int) == esc(out@),
            j == i + esc(out@).len(),
            forall|content: Seq<char>|
                str_at(doc@, i as int, content) ==> #[trigger] prefix_ok(content, out@),
        decreases len - j,
    {
        if j == len {
            proof {
                assert forall|content: Seq<char>| !str_at(doc@, i as int, content) by {
                    if str_at(doc@, i as int, content) {
                        assert(prefix_ok(content, out@));
                        lemma_split_tail(doc@, i as int, j as int, out@, content);
                    }
                }
            }
            return None;
        }
        let c = doc[j];
        if c == '"' {
            proof {
                assert forall|content: Seq<char>|
                    str_at(doc@, i as int, content) implies content == out@ by {
                    assert(prefix_ok(content, out@));
                    lemma_split_tail(doc@, i as int, j as int, out@, content);
                    let k = out@.len() as int;
                    if k < content.len() {
                        assert(doc@[j as int] == doc@.subrange(
                            j as int,
                            j + esc_char(content[k]).len(),
                        )[0]);
                        assert(doc@[j as int] == esc_char(content[k])[0]);
                        assert(false);
                    }
                    assert(content =~= out@);
                }
                assert(str_at(doc@, i as int, out@));
            }
            return Some((out, j + 1));
        } else if c == '\\' {
            if j + 1 == len {
                proof {
                    assert forall|content: Seq<char>| !str_at(doc@, i as int, content) by {
                        if str_at(doc@, i as int, content) {
                            assert(prefix_ok(content, out@));
                            lemma_split_tail(doc@, i as int, j as int, out@, content);
                            let k = out@.len() as int;
                            assert(k < content.len());
                            assert(esc_char(content[k]).len() == 2);
                        }
                    }
                }
                return None;
            }
            let c1 = doc[j + 1];
            if c1 == '"' || c1 == '\\' {
                let ghost before = out@;
                out.push(c1);
                proof {
                    lemma_esc_append(before, seq![c1]);
                    lemma_esc_singleton(c1);
                    assert(out@ =~= before + seq![c1]);
                    assert(doc@.subrange(i as int, j + 2) =~= doc@.subrange(i as int, j as int)
                        + doc@.subrange(j as int, j + 2));
                    assert forall|content: Seq<char>|
                        str_at(doc@, i as int, content) implies #[trigger] prefix_ok(
                        content,
                        out@,
                    ) by {
                        assert(prefix_ok(content, before));
                        lemma_split_tail(doc@, i as int, j as int, before, content);
                        let k = before.len() as int;
                        assert(k < content.len());
                        let ec = esc_char(content[k]);
                        assert(doc@[j as int] == doc@.subrange(j as int, j + ec.len())[0]);
                        assert(doc@[j as int] == ec[0]);
                        assert(content[k] == '"' || content[k] == '\\');
                        assert(doc@[j + 1] == doc@.subrange(j as int, j + 2)[1]);
                        assert(doc@[j + 1] == ec[1]);
                        assert(content[k] == c1);
                        assert(doc@.subrange(j as int, j + 2) =~= esc_char(c1));
                        assert(content.take(k + 1) =~= content.take(k) + seq![content[k]]);
                        lemma_esc_append(content.take(k), seq![content[k]]);
                        assert(content.take(out@.len() as int) =~= out@);
                        assert(prefix_ok(content, out@));
                    }
                    assert(doc@.subrange(i as int, j + 2) =~= esc(before) + esc_char(c1));
                    lemma_esc_append(before, seq![c1]);
                }
                j = j + 2;
            } else {
                proof {
                    assert forall|content: Seq<char>| !str_at(doc@, i as int, content) by {
                        if str_at(doc@, i as int, content) {
                            assert(prefix_ok(content, out@));
                            lemma_split_tail(doc@, i as int, j as int, out@, content);
                            let k = out@.len() as int;
                            assert(k < content.len());
                            let ec = esc_char(content[k]);
                            assert(doc@[j as int] == doc@.subrange(j as int, j + ec.len())[0]);
                            assert(doc@[j as int] == ec[0]);
                            assert(content[k] == '"' || content[k] == '\\');
                            assert(doc@[j + 1] == doc@.subrange(j as int, j + 2)[1]);
                            assert(doc@[j + 1] == ec[1]);
                        }
                    }
                }
                return None;
            }
        } else {
            let ghost before = out@;
            out.push(c);
            proof {
                lemma_esc_append(before, seq![c]);
                lemma_esc_singleton(c);
                assert(out@ =~= before + seq![c]);
                assert(esc_char(c) =~= seq![c]);
                assert(doc@.subrange(i as int, j + 1) =~= doc@.subrange(i as int, j as int)
                    + doc@.subrange(j as int, j + 1));
                assert(doc@.subrange(j as int, j + 1) =~= seq![c]);
                assert forall|content: Seq<char>|
                    str_at(doc@, i as int, content) implies #[trigger] prefix_ok(
                    content,
                    out@,
                ) by {
                    assert(prefix_ok(content, before));
                    lemma_split_tail(doc@, i as int, j as int, before, content);
                    let k = before.len() as int;
                    assert(k < content.len());
                    let ec = esc_char(content[k]);
                    assert(doc@[j as int] == doc@.subrange(j as int, j + ec.len())[0]);
                    assert(doc@[j as int] == ec[0]);
                    assert(content[k] == c);
                    assert(content.take(k + 1) =~= content.take(k) + seq![content[k]]);
                    lemma_esc_append(content.take(k), seq![content[k]]);
                    lemma_esc_singleton(content[k]);
                    assert(content.take(out@.len() as int) =~= out@);
                    assert(prefix_ok(content, out@));
                }
            }
            j = j + 1;
        }
    }
}

/// What remains at `j` once `done` has been read from `i` on: if `content`
/// could stand here in full, its unread tail follows, so either its closing
/// quote is at `j`, or the escape of its next character starts there.
pub open spec fn tail_facts(
    doc: Seq<char>,
    i: int,
    j: int,
    done: Seq<char>,
    content: Seq<char>,
) -> bool {
    let k = done.len() as int;
    &&& k <= content.len()
    &&& (k == content.len() ==> j + 1 <= doc.len() && doc[j] == '"')
    &&& (k < content.len() ==> {
        let e = esc_char(content[k]);
        &&& j + e.len() < doc.len()
        &&& doc.subrange(j, j + e.len()) == e
    })
}

/// Establishes `tail_facts`: splitting the escaped text after its read part
/// places the next escape, or the closing quote, at `j`.
pub proof fn lemma_split_tail(doc: Seq<char>, i: int, j: int, done: Seq<char>, content: Seq<char>)
    requires
        str_at(doc, i, content),
        content.take(done.len() as int) == done,
        done.len() <= content.len(),
        0 <= i <= j <= doc.len(),
        j == i + esc(done).len(),
    ensures
        tail_facts(doc, i, j, done, content),
{
    let k = done.len() as int;
    let e = esc(content);
    assert(content =~= content.take(k) + content.skip(k));
    lemma_esc_append(content.take(k), content.skip(k));
    if k == content.len() {
        assert(content.skip(k) =~= Seq::<char>::empty());
        assert(esc(content) == esc(done));
        assert(doc[i + esc(content).len()] == '"');
    } else {
        let rest = content.skip(k);
        assert(rest.len() > 0);
        assert(esc(rest) == esc_char(rest[0]) + esc(rest.skip(1)));
        assert(rest[0] == content[k]);
        let ec = esc_char(content[k]);
        assert(e.len() == esc(done).len() + ec.len() + esc(rest.skip(1)).len());
        assert forall|m: int| 0 <= m < ec.len() implies doc[j + m] == ec[m] by {
            assert(doc.subrange(i, i + e.len())[j - i + m] == doc[j + m]);
            assert(e[j - i + m] == (esc_char(rest[0]) + esc(rest.skip(1)))[m]);
        }
        assert(doc.subrange(j, j + ec.len()) =~= ec);
        assert(j + ec.len() <= i + e.len() < doc.len());
    }
}

// ---------------------------------------------------------------------------
// One task record. The fixed field names frame the identifier, the quoted
// description, the completion flag and the creation time, in that order.
// ---------------------------------------------------------------------------

/// The opening of a record, up to the identifier: `{"id":`.
pub open spec fn lit_open() -> Seq<char> {
    seq!['{', '"', 'i', 'd', '"', ':']
}

/// Between the identifier and the description, up to its opening quote:
/// `,"description":"`.
pub open spec fn lit_desc() -> Seq<char> {
    seq![',', '"', 'd', 'e', 's', 'c', 'r', 'i', 'p', 't', 'i', 'o', 'n', '"', ':', '"']
}

/// Between the description's closing quote and the flag: `,"completed":`.
pub open spec fn lit_comp() -> Seq<char> {
    seq![',', '"', 'c', 'o', 'm', 'p', 'l', 'e', 't', 'e', 'd', '"', ':']
}

/// Between the flag and the creation time: `,"created_at":`.
pub open spec fn lit_created() -> Seq<char> {
    seq![',', '"', 'c', 'r', 'e', 'a', 't', 'e', 'd', '_', 'a', 't', '"', ':']
}

/// The completion flag's two spellings.
pub open spec fn bool_doc(b: bool) -> Seq<char> {
    if b {
        seq!['t', 'r', 'u', 'e']
    } else {
        seq!['f', 'a', 'l', 's', 'e']
    }
}

/// One task record, its pieces grouped from the right so that proofs can
/// peel them off the front one at a time.
pub open spec fn task_doc(t: TaskModel) -> Seq<char> {
    lit_open() + (dec_digits(t.id as nat) + (lit_desc() + (esc(t.description) + (seq!['"'] + (
    lit_comp() + (bool_doc(t.completed) + (lit_created() + (dec_digits(t.created_at as nat)
        + seq!['}']))))))))
}

/// The record of a well-formed task stands at `i`.
pub open spec fn task_at(doc: Seq<char>, i: int, t: TaskModel) -> bool {
    let d = task_doc(t);
    &&& 0 <= i
    &&& i + d.len() <= doc.len()
    &&& doc.subrange(i, i + d.len()) == d
    &&& wf_task(t)
}

/// Splitting one known stretch of the document in two.
pub proof fn lemma_chop(doc: Seq<char>, i: int, a: Seq<char>, b: Seq<char>)
    requires
        0 <= i,
        i + a.len() + b.len() <= doc.len(),
        doc.subrange(i, i + a.len() + b.len()) == a + b,
    ensures
        doc.subrange(i, i + a.len()) == a,
        doc.subrange(i + a.len(), i + a.len() + b.len()) == b,
{
    let whole = doc.subrange(i, i + a.len() + b.len());
    assert forall|m: int| 0 <= m < a.len() implies doc.subrange(i, i + a.len())[m] == a[m] by {
        assert(whole[m] == (a + b)[m]);
    }
    assert(doc.subrange(i, i + a.len()) =~= a);
    assert forall|m: int| 0 <= m < b.len() implies doc.subrange(
        i + a.len(),
        i + a.len() + b.len(),
    )[m] == b[m] by {
        assert(whole[a.len() + m] == (a + b)[a.len() + m]);
    }
    assert(doc.subrange(i + a.len(), i + a.len() + b.len()) =~= b);
}

/// Append a copy of `xs`.
pub(crate) fn push_chars(out: &mut Vec<char>, xs: &Vec<char>)
    ensures
        final(out)@ == old(out)@ + xs@,
{
    let n = xs.len();
    let mut i: usize = 0;
    while i < n
        invariant
            n == xs@.len(),
            i <= n,
            out@ == old(out)@ + xs@.take(i as int),
        decreases n - i,
    {
        let c = xs[i];
        out.push(c);
        proof {
            assert(xs@.take(i + 1) =~= xs@.take(i as int) + seq![xs@[i as int]]);
            assert(out@ =~= old(out)@ + xs@.take(i + 1));
        }
        i = i + 1;
    }
    proof {
        assert(xs@.take(n as int) =~= xs@);
    }
}

/// Exactly `pat` stands at `i`; answers where it goes on.
pub(crate) fn eat(doc: &Vec<char>, i: usize, pat: &Vec<char>) -> (r: Option<usize>)
    requires
        i <= doc@.len(),
    ensures
        match r {
            Some(j) => {
                &&& j == i + pat@.len()
                &&& j <= doc@.len()
                &&& doc@.subrange(i as int, j as int) == pat@
            },
            None => !(i + pat@.len() <= doc@.len() && doc@.subrange(
                i as int,
                i + pat@.len(),
            ) == pat@),
        },
{
    let m = pat.len();
    let len = doc.len();
    if len - i < m {
        return None;
    }
    let mut k: usize = 0;
    while k < m
        invariant
            m == pat@.len(),
            len == doc@.len(),
            i + m <= len,
            k <= m,
            forall|t: int| 0 <= t < k ==> doc@[i + t] == pat@[t],
        decreases m - k,
    {
        if doc[i + k] != pat[k] {
            proof {
                if doc@.subrange(i as int, i + pat@.len()) == pat@ {
                    assert(doc@.subrange(i as int, i + pat@.len())[k as int] == doc@[i + k]);
                }
            }
            return None;
        }
        k = k + 1;
    }
    proof {
        assert(doc@.subrange(i as int, i + m) =~= pat@);
    }
    Some(i + m)
}

/// `{"id":` as a value.
fn lit_open_chars() -> (r: Vec<char>)
    ensures
        r@ == lit_open(),
{
    let mut v: Vec<char> = Vec::new();
    v.push('{');
    v.push('"');
    v.push('i');
    v.push('d');
    v.push('"');
    v.push(':');
    proof {
        assert(v@ =~= lit_open());
    }
    v
}

/// `,"description":"` as a value.
fn lit_desc_chars() -> (r: Vec<char>)
    ensures
        r@ == lit_desc(),
{
    let mut v: Vec<char> = Vec::new();
    v.push(',');
    v.push('"');
    v.push('d');
    v.push('e');
    v.push('s');
    v.push('c');
    v.push('r');
    v.push('i');
    v.push('p');
    v.push('t');
    v.push('i');
    v.push('o');
    v.push('n');
    v.push('"');
    v.push(':');
    v.push('"');
    proof {
        assert(v@ =~= lit_desc());
    }
    v
}

/// `,"completed":` as a value.
fn lit_comp_chars() -> (r: Vec<char>)
    ensures
        r@ == lit_comp(),
{
    let mut v: Vec<char> = Vec::new();
    v.push(',');
    v.push('"');
    v.push('c');
    v.push('o');
    v.push('m');
    v.push('p');
    v.push('l');
    v.push('e');
    v.push('t');
    v.push('e');
    v.push('d');
    v.push('"');
    v.push(':');
    proof {
        assert(v@ =~= lit_comp());
    }
    v
}

/// `,"created_at":` as a value.
fn lit_created_chars() -> (r: Vec<char>)
    ensures
        r@ == lit_created(),
{
    let mut v: Vec<char> = Vec::new();
    v.push(',');
    v.push('"');
    v.push('c');
    v.push('r');
    v.push('e');
    v.push('a');
    v.push('t');
    v.push('e');
    v.push('d');
    v.push('_');
    v.push('a');
    v.push('t');
    v.push('"');
    v.push(':');
    proof {
        assert(v@ =~= lit_created());
    }
    v
}

/// `true` or `false` as a value.
fn bool_chars(b: bool) -> (r: Vec<char>)
    ensures
        r@ == bool_doc(b),
{
    let mut v: Vec<char> = Vec::new();
    if b {
        v.push('t');
        v.push('r');
        v.push('u');
        v.push('e');
    } else {
        v.push('f');
        v.push('a');
        v.push('l');
        v.push('s');
        v.push('e');
    }
    proof {
        assert(v@ =~= bool_doc(b));
    }
    v
}

/// Append the record of one task.
pub(crate) fn push_task(out: &mut Vec<char>, t: &Task)
    ensures
        final(out)@ == old(out)@ + task_doc(t@),
{
    let open = lit_open_chars();
    push_chars(out, &open);
    push_u64(out, t.id);
    let d = lit_desc_chars();
    push_chars(out, &d);
    push_escaped(out, t.description.as_str());
    out.push('"');
    let c = lit_comp_chars();
    push_chars(out, &c);
    let b = bool_chars(t.completed);
    push_chars(out, &b);
    let cr = lit_created_chars();
    push_chars(out, &cr);
    push_u64(out, t.created_at);
    out.push('}');
    proof {
        assert(out@ =~= old(out)@ + task_doc(t@));
    }
}

/// Relies on `String: FromIterator<char>` from core: collecting characters
/// yields the string of exactly those characters, in order.
#[verifier::external_body]
pub(crate) fn chars_to_string(v: Vec<char>) -> (r: String)
    ensures
        r@ == v@,
{
    v.into_iter().collect()
}

/// The opening half of a record stands at `i`: the frame, the identifier
/// `id`, and the quoted description `desc`.
pub open spec fn head_at(doc: Seq<char>, i: int, id: u64, desc: Seq<char>) -> bool {
    let p1 = i + lit_open().len();
    let p2 = p1 + dec_digits(id as nat).len();
    let p3 = p2 + lit_desc().len();
    &&& 0 <= i
    &&& p1 <= doc.len()
    &&& doc.subrange(i, p1) == lit_open()
    &&& num_at(doc, p1, id)
    &&& p3 <= doc.len()
    &&& doc.subrange(p2, p3) == lit_desc()
    &&& str_at(doc, p3, desc)
}

/// Where the record goes on after its opening half.
pub open spec fn head_end(i: int, id: u64, desc: Seq<char>) -> int {
    i + lit_open().len() + dec_digits(id as nat).len() + lit_desc().len() + esc(desc).len() + 1
}

/// The closing half of a record stands at `j`: the flag `completed`, the
/// time `created_at`, and the closing brace.
pub open spec fn tail_at(doc: Seq<char>, j: int, completed: bool, created_at: u64) -> bool {
    let q1 = j + lit_comp().len();
    let q2 = q1 + bool_doc(completed).len();
    let q3 = q2 + lit_created().len();
    let q4 = q3 + dec_digits(created_at as nat).len();
    &&& 0 <= j
    &&& q1 <= doc.len()
    &&& doc.subrange(j, q1) == lit_comp()
    &&& q2 <= doc.len()
    &&& doc.subrange(q1, q2) == bool_doc(completed)
    &&& q3 <= doc.len()
    &&& doc.subrange(q2, q3) == lit_created()
    &&& num_at(doc, q3, created_at)
    &&& q4 + 1 <= doc.len()
    &&& doc[q4] == '}'
}

/// The first position after a record's closing half.
pub open spec fn tail_end(j: int, completed: bool, created_at: u64) -> int {
    j + lit_comp().len() + bool_doc(completed).len() + lit_created().len() + dec_digits(
        created_at as nat,
    ).len() + 1
}

/// Gluing two known adjacent stretches of the document into one.
pub proof fn lemma_glue(doc: Seq<char>, i: int, a: Seq<char>, b: Seq<char>)
    requires
        0 <= i,
        i + a.len() + b.len() <= doc.len(),
        doc.subrange(i, i + a.len()) == a,
        doc.subrange(i + a.len(), i + a.len() + b.len()) == b,
    ensures
        doc.subrange(i, i + a.len() + b.len()) == a + b,
{
    assert forall|m: int| 0 <= m < a.len() + b.len() implies doc.subrange(
        i,
        i + a.len() + b.len(),
    )[m] == (a + b)[m] by {
        if m < a.len() {
            assert(doc.subrange(i, i + a.len())[m] == a[m]);
        } else {
            assert(doc.subrange(i + a.len(), i + a.len() + b.len())[m - a.len()] == b[m
                - a.len()]);
        }
    }
    assert(doc.subrange(i, i + a.len() + b.len()) =~= a + b);
}

/// Where each piece of a task's record stands, once the whole record is
/// known to stand at `i`.
pub proof fn lemma_task_at_parts(doc: Seq<char>, i: int, t: TaskModel)
    requires
        task_at(doc, i, t),
    ensures
        head_at(doc, i, t.id, t.description),
        tail_at(doc, head_end(i, t.id, t.description), t.completed, t.created_at),
        i + task_doc(t).len() == tail_end(
            head_end(i, t.id, t.description),
            t.completed,
            t.created_at,
        ),
{
    let p1 = i + lit_open().len();
    let p2 = p1 + dec_digits(t.id as nat).len();
    let p3 = p2 + lit_desc().len();
    let pq = p3 + esc(t.description).len();
    let p4 = pq + 1;
    let p5 = p4 + lit_comp().len();
    let p6 = p5 + bool_doc(t.completed).len();
    let p7 = p6 + lit_created().len();
    let p8 = p7 + dec_digits(t.created_at as nat).len();
    let r1 = dec_digits(t.id as nat) + (lit_desc() + (esc(t.description) + (seq!['"'] + (
    lit_comp() + (bool_doc(t.completed) + (lit_created() + (dec_digits(t.created_at as nat)
        + seq!['}'])))))));
    let r2 = lit_desc() + (esc(t.description) + (seq!['"'] + (lit_comp() + (bool_doc(t.completed)
        + (lit_created() + (dec_digits(t.created_at as nat) + seq!['}']))))));
    let r3 = esc(t.description) + (seq!['"'] + (lit_comp() + (bool_doc(t.completed) + (
    lit_created() + (dec_digits(t.created_at as nat) + seq!['}'])))));
    let r4 = seq!['"'] + (lit_comp() + (bool_doc(t.completed) + (lit_created() + (dec_digits(
        t.created_at as nat,
    ) + seq!['}']))));
    let r5 = lit_comp() + (bool_doc(t.completed) + (lit_created() + (dec_digits(
        t.created_at as nat,
    ) + seq!['}'])));
    let r6 = bool_doc(t.completed) + (lit_created() + (dec_digits(t.created_at as nat)
        + seq!['}']));
    let r7 = lit_created() + (dec_digits(t.created_at as nat) + seq!['}']);
    let r8 = dec_digits(t.created_at as nat) + seq!['}'];
    assert(task_doc(t) == lit_open() + r1);
    lemma_chop(doc, i, lit_open(), r1);
    lemma_chop(doc, p1, dec_digits(t.id as nat), r2);
    lemma_chop(doc, p2, lit_desc(), r3);
    lemma_chop(doc, p3, esc(t.description), r4);
    lemma_chop(doc, pq, seq!['"'], r5);
    lemma_chop(doc, p4, lit_comp(), r6);
    lemma_chop(doc, p5, bool_doc(t.completed), r7);
    lemma_chop(doc, p6, lit_created(), r8);
    lemma_chop(doc, p7, dec_digits(t.created_at as nat), seq!['}']);
    // The identifier's digits end at a comma, the time's at the brace.
    assert(doc[p2] == doc.subrange(p2, p3)[0]);
    assert(doc[p2] == ',');
    assert(doc[p8] == doc.subrange(p8, p8 + 1)[0]);
    assert(doc[p8] == '}');
    assert(num_at(doc, p1, t.id));
    assert(doc[pq] == doc.subrange(pq, pq + 1)[0]);
    assert(doc[pq] == '"');
    assert(str_at(doc, p3, t.description));
    assert(num_at(doc, p7, t.created_at));
}

/// The two halves of a record, standing one after the other, make the whole
/// record stand.
pub proof fn lemma_task_at_assemble(doc: Seq<char>, i: int, m: TaskModel)
    requires
        wf_task(m),
        head_at(doc, i, m.id, m.description),
        tail_at(doc, head_end(i, m.id, m.description), m.completed, m.created_at),
    ensures
        task_at(doc, i, m),
        i + task_doc(m).len() == tail_end(
            head_end(i, m.id, m.description),
            m.completed,
            m.created_at,
        ),
{
    let p1 = i + lit_open().len();
    let p2 = p1 + dec_digits(m.id as nat).len();
    let p3 = p2 + lit_desc().len();
    let pq = p3 + esc(m.description).len();
    let p4 = pq + 1;
    let p5 = p4 + lit_comp().len();
    let p6 = p5 + bool_doc(m.completed).len();
    let p7 = p6 + lit_created().len();
    let p8 = p7 + dec_digits(m.created_at as nat).len();
    let r8 = dec_digits(m.created_at as nat) + seq!['}'];
    let r7 = lit_created() + r8;
    let r6 = bool_doc(m.completed) + r7;
    let r5 = lit_comp() + r6;
    let r4 = seq!['"'] + r5;
    let r3 = esc(m.description) + r4;
    let r2 = lit_desc() + r3;
    let r1 = dec_digits(m.id as nat) + r2;
    assert(doc.subrange(p8, p8 + 1) =~= seq!['}']);
    lemma_glue(doc, p7, dec_digits(m.created_at as nat), seq!['}']);
    lemma_glue(doc, p6, lit_created(), r8);
    lemma_glue(doc, p5, bool_doc(m.completed), r7);
    lemma_glue(doc, p4, lit_comp(), r6);
    assert(doc.subrange(pq, pq + 1) =~= seq!['"']);
    lemma_glue(doc, pq, seq!['"'], r5);
    lemma_glue(doc, p3, esc(m.description), r4);
    lemma_glue(doc, p2, lit_desc(), r3);
    lemma_glue(doc, p1, dec_digits(m.id as nat), r2);
    lemma_glue(doc, i, lit_open(), r1);
    assert(task_doc(m) == lit_open() + r1);
}

/// A record's closing half pins its flag and its time: the first character
/// tells `true` from `false`, and a position renders one number only.
pub proof fn lemma_tail_unique(doc: Seq<char>, j: int, b1: bool, n1: u64, b2: bool, n2: u64)
    requires
        tail_at(doc, j, b1, n1),
        tail_at(doc, j, b2, n2),
    ensures
        b1 == b2,
        n1 == n2,
{
    let q1 = j + lit_comp().len();
    if b1 != b2 {
        assert(doc[q1] == doc.subrange(q1, q1 + bool_doc(b1).len())[0]);
        assert(doc[q1] == bool_doc(b1)[0]);
        assert(doc[q1] == doc.subrange(q1, q1 + bool_doc(b2).len())[0]);
        assert(doc[q1] == bool_doc(b2)[0]);
        assert(false);
    }
    lemma_num_at_unique(doc, q1 + bool_doc(b1).len() + lit_created().len(), n1, n2);
}

/// Read the opening half of a record at `i`: the identifier and the
/// description text. Whatever whole record could stand at `i` agrees with
/// what was read.
fn parse_task_head(doc: &Vec<char>, i: usize) -> (r: Option<(u64, Vec<char>, usize)>)
    requires
        i <= doc@.len(),
    ensures
        match r {
            Some(v) => {
                &&& head_at(doc@, i as int, v.0, v.1@)
                &&& 1 <= v.0 < u64::MAX
                &&& v.2 == head_end(i as int, v.0, v.1@)
                &&& i < v.2 <= doc@.len()
                &&& forall|t: TaskModel|
                    task_at(doc@, i as int, t) ==> t.id == v.0 && t.description == v.1@
            },
            None => forall|t: TaskModel| !task_at(doc@, i as int, t),
        },
{
    let open = lit_open_chars();
    let p1 = match eat(doc, i, &open) {
        None => {
            proof {
                assert forall|t: TaskModel| !task_at(doc@, i as int, t) by {
                    if task_at(doc@, i as int, t) {
                        lemma_task_at_parts(doc@, i as int, t);
                    }
                }
            }
            return None;
        },
        Some(p) => p,
    };
    let (id, p2) = match parse_u64(doc, p1) {
        None => {
            proof {
                assert forall|t: TaskModel| !task_at(doc@, i as int, t) by {
                    if task_at(doc@, i as int, t) {
                        lemma_task_at_parts(doc@, i as int, t);
                    }
                }
            }
            return None;
        },
        Some(v) => v,
    };
    if id == 0 || id == u64::MAX {
        proof {
            assert forall|t: TaskModel| !task_at(doc@, i as int, t) by {
                if task_at(doc@, i as int, t) {
                    lemma_task_at_parts(doc@, i as int, t);
                    lemma_num_at_unique(doc@, p1 as int, t.id, id);
                }
            }
        }
        return None;
    }
    let dl = lit_desc_chars();
    let p3 = match eat(doc, p2, &dl) {
        None => {
            proof {
                assert forall|t: TaskModel| !task_at(doc@, i as int, t) by {
                    if task_at(doc@, i as int, t) {
                        lemma_task_at_parts(doc@, i as int, t);
                        lemma_num_at_unique(doc@, p1 as int, t.id, id);
                    }
                }
            }
            return None;
        },
        Some(p) => p,
    };
    match parse_string(doc, p3) {
        None => {
            proof {
                assert forall|t: TaskModel| !task_at(doc@, i as int, t) by {
                    if task_at(doc@, i as int, t) {
                        lemma_task_at_parts(doc@, i as int, t);
                        lemma_num_at_unique(doc@, p1 as int, t.id, id);
                    }
                }
            }
            None
        },
        Some((desc_chars, p4)) => {
            proof {
                assert(head_at(doc@, i as int, id, desc_chars@));
                assert forall|t: TaskModel|
                    task_at(doc@, i as int, t) implies t.id == id && t.description
                    == desc_chars@ by {
                    lemma_task_at_parts(doc@, i as int, t);
                    lemma_num_at_unique(doc@, p1 as int, t.id, id);
                }
            }
            Some((id, desc_chars, p4))
        },
    }
}

/// Read the closing half of a record at `j`: the flag, the time, the brace.
fn parse_task_tail(doc: &Vec<char>, j: usize) -> (r: Option<(bool, u64, usize)>)
    requires
        j <= doc@.len(),
    ensures
        match r {
            Some(v) => {
                &&& tail_at(doc@, j as int, v.0, v.1)
                &&& v.2 == tail_end(j as int, v.0, v.1)
                &&& j < v.2 <= doc@.len()
            },
            None => forall|b: bool, n: u64| !tail_at(doc@, j as int, b, n),
        },
{
    let cl = lit_comp_chars();
    let q1 = match eat(doc, j, &cl) {
        None => {
            return None;
        },
        Some(p) => p,
    };
    let tv = bool_chars(true);
    let fv = bool_chars(false);
    let completed: bool;
    let q2: usize;
    match eat(doc, q1, &tv) {
        Some(p) => {
            completed = true;
            q2 = p;
        },
        None => {
            match eat(doc, q1, &fv) {
                Some(p) => {
                    completed = false;
                    q2 = p;
                },
                None => {
                    return None;
                },
            }
        },
    }
    let crl = lit_created_chars();
    let q3 = match eat(doc, q2, &crl) {
        None => {
            proof {
                assert forall|b: bool, n: u64| !tail_at(doc@, j as int, b, n) by {
                    if tail_at(doc@, j as int, b, n) {
                        if b != completed {
                            let q = j + lit_comp().len();
                            assert(doc@[q] == doc@.subrange(q, q + bool_doc(b).len())[0]);
                            assert(doc@[q] == doc@.subrange(q, q + bool_doc(completed).len())[0]);
                        }
                    }
                }
            }
            return None;
        },
        Some(p) => p,
    };
    match parse_u64(doc, q3) {
        None => {
            proof {
                assert forall|b: bool, n: u64| !tail_at(doc@, j as int, b, n) by {
                    if tail_at(doc@, j as int, b, n) {
                        if b != completed {
                            let q = j + lit_comp().len();
                            assert(doc@[q] == doc@.subrange(q, q + bool_doc(b).len())[0]);
                            assert(doc@[q] == doc@.subrange(q, q + bool_doc(completed).len())[0]);
                        }
                    }
                }
            }
            None
        },
        Some((created_at, q4)) => {
            let brace_missing = if q4 == doc.len() {
                true
            } else {
                doc[q4] != '}'
            };
            if brace_missing {
                proof {
                    assert forall|b: bool, n: u64| !tail_at(doc@, j as int, b, n) by {
                        if tail_at(doc@, j as int, b, n) {
                            if b != completed {
                                let q = j + lit_comp().len();
                                assert(doc@[q] == doc@.subrange(q, q + bool_doc(b).len())[0]);
                                assert(doc@[q] == doc@.subrange(
                                    q,
                                    q + bool_doc(completed).len(),
                                )[0]);
                            }
                            assert(b == completed);
                            lemma_num_at_unique(
                                doc@,
                                j + lit_comp().len() + bool_doc(b).len() + lit_created().len(),
                                n,
                                created_at,
                            );
                        }
                    }
                }
                return None;
            }
            proof {
                assert(tail_at(doc@, j as int, completed, created_at));
            }
            Some((completed, created_at, q4 + 1))
        },
    }
}

/// Read one task record starting at `i`. Succeeds exactly where some
/// well-formed task has its record there, and that task is unique.
pub(crate) fn parse_task(doc: &Vec<char>, i: usize) -> (r: Option<(Task, usize)>)
    requires
        i <= doc@.len(),
    ensures
        match r {
            Some(v) => {
                &&& i < v.1 <= doc@.len()
                &&& task_at(doc@, i as int, v.0@)
                &&& v.1 == i + task_doc(v.0@).len()
                &&& forall|t: TaskModel| task_at(doc@, i as int, t) ==> t == v.0@
            },
            None => forall|t: TaskModel| !task_at(doc@, i as int, t),
        },
{
    let (id, desc_chars, p4) = match parse_task_head(doc, i) {
        None => {
            return None;
        },
        Some(v) => v,
    };
    let ghost desc_view = desc_chars@;
    match parse_task_tail(doc, p4) {
        None => {
            proof {
                assert forall|t: TaskModel| !task_at(doc@, i as int, t) by {
                    if task_at(doc@, i as int, t) {
                        lemma_task_at_parts(doc@, i as int, t);
                        assert(t.id == id && t.description == desc_view);
                        assert(head_end(i as int, t.id, t.description) == p4 as int);
                    }
                }
            }
            None
        },
        Some((completed, created_at, end)) => {
            let description = chars_to_string(desc_chars);
            let out = Task { id, description, completed, created_at };
            proof {
                let m = out@;
                assert(m.id == id && m.description == desc_view && m.completed == completed
                    && m.created_at == created_at);
                assert(wf_task(m));
                lemma_task_at_assemble(doc@, i as int, m);
                assert forall|t: TaskModel| task_at(doc@, i as int, t) implies t == m by {
                    lemma_task_at_parts(doc@, i as int, t);
                    assert(t.id == id && t.description == desc_view);
                    assert(head_end(i as int, t.id, t.description) == p4 as int);
                    lemma_tail_unique(
                        doc@,
                        p4 as int,
                        t.completed,
                        t.created_at,
                        completed,
                        created_at,
                    );
                }
            }
            Some((out, end))
        },
    }
}

// ---------------------------------------------------------------------------
// The whole document: the records of all tasks, in identifier order, between
// brackets and separated by commas.
// ---------------------------------------------------------------------------

/// What follows the first record: each further record behind a comma, then
/// the closing bracket.
pub open spec fn rest_doc(u: Seq<TaskModel>) -> Seq<char>
    decreases u.len(),
{
    if u.len() == 0 {
        seq![']']
    } else {
        seq![','] + (task_doc(u[0]) + rest_doc(u.skip(1)))
    }
}

/// The document of a task sequence.
pub open spec fn tasks_doc(s: Seq<TaskModel>) -> Seq<char> {
    if s.len() == 0 {
        seq!['[', ']']
    } else {
        seq!['['] + (task_doc(s[0]) + rest_doc(s.skip(1)))
    }
}

/// `doc` is the document of the well-formed task sequence `s`.
pub open spec fn doc_matches(doc: Seq<char>, s: Seq<TaskModel>) -> bool {
    &&& wf_task_seq(s)
    &&& doc == tasks_doc(s)
}

/// A record tail is never empty, ends at the closing bracket, and opens with
/// a comma where a record follows.
pub proof fn lemma_rest_doc_last(u: Seq<TaskModel>)
    ensures
        rest_doc(u).len() >= 1,
        rest_doc(u).last() == ']',
        rest_doc(u)[0] == if u.len() == 0 { ']' } else { ',' },
    decreases u.len(),
{
    if u.len() > 0 {
        lemma_rest_doc_last(u.skip(1));
        let whole = seq![','] + (task_doc(u[0]) + rest_doc(u.skip(1)));
        assert(whole.last() == rest_doc(u.skip(1)).last());
    }
}

/// A document spans at least the two brackets, opens with `[` and closes
/// with `]`.
pub proof fn lemma_tasks_doc_last(s: Seq<TaskModel>)
    ensures
        tasks_doc(s).len() >= 2,
        tasks_doc(s).last() == ']',
        tasks_doc(s)[0] == '[',
{
    if s.len() > 0 {
        lemma_rest_doc_last(s.skip(1));
        let whole = seq!['['] + (task_doc(s[0]) + rest_doc(s.skip(1)));
        assert(whole.last() == rest_doc(s.skip(1)).last());
    }
}

/// One more record extends a tail just before its closing bracket.
pub proof fn lemma_rest_doc_snoc(u: Seq<TaskModel>, t: TaskModel)
    ensures
        rest_doc(u.push(t)) == rest_doc(u).drop_last() + seq![','] + task_doc(t) + seq![']'],
    decreases u.len(),
{
    if u.len() == 0 {
        assert(u.push(t)[0] == t);
        assert(u.push(t).skip(1) =~= Seq::<TaskModel>::empty());
        assert(rest_doc(Seq::<TaskModel>::empty()) == seq![']']);
        assert(rest_doc(u.push(t)) == seq![','] + (task_doc(t) + seq![']']));
        assert(rest_doc(u).drop_last() =~= Seq::<char>::empty());
        assert(rest_doc(u.push(t)) =~= rest_doc(u).drop_last() + seq![','] + task_doc(t)
            + seq![']']);
    } else {
        assert(u.push(t).skip(1) =~= u.skip(1).push(t));
        lemma_rest_doc_snoc(u.skip(1), t);
        assert(u.push(t)[0] == u[0]);
        lemma_rest_doc_last(u.skip(1));
        assert(rest_doc(u).drop_last() =~= seq![','] + task_doc(u[0]) + rest_doc(
            u.skip(1),
        ).drop_last());
        assert(rest_doc(u.push(t)) =~= rest_doc(u).drop_last() + seq![','] + task_doc(t)
            + seq![']']);
    }
}

/// One more record extends a document just before its closing bracket.
pub proof fn lemma_tasks_doc_snoc(s: Seq<TaskModel>, t: TaskModel)
    requires
        s.len() >= 1,
    ensures
        tasks_doc(s.push(t)) == tasks_doc(s).drop_last() + seq![','] + task_doc(t) + seq![']'],
{
    assert(s.push(t).skip(1) =~= s.skip(1).push(t));
    lemma_rest_doc_snoc(s.skip(1), t);
    assert(s.push(t)[0] == s[0]);
    lemma_rest_doc_last(s.skip(1));
    assert(tasks_doc(s.push(t)) =~= tasks_doc(s).drop_last() + seq![','] + task_doc(t)
        + seq![']']);
}

/// A document splits, after any leading stretch of its records, into that
/// stretch's own document without its bracket, and the tail of what remains.
pub proof fn lemma_tasks_doc_decompose(s: Seq<TaskModel>, k: int)
    requires
        1 <= k <= s.len(),
    ensures
        tasks_doc(s) == tasks_doc(s.take(k)).drop_last() + rest_doc(s.skip(k)),
    decreases s.len() - k,
{
    if k == s.len() {
        assert(s.take(k) =~= s);
        assert(s.skip(k) =~= Seq::<TaskModel>::empty());
        lemma_tasks_doc_last(s);
        assert(tasks_doc(s) =~= tasks_doc(s).drop_last() + seq![']']);
    } else {
        lemma_tasks_doc_decompose(s, k + 1);
        assert(s.take(k + 1) =~= s.take(k).push(s[k]));
        lemma_tasks_doc_snoc(s.take(k), s[k]);
        assert(s.skip(k).skip(1) =~= s.skip(k + 1));
        assert(s.skip(k)[0] == s[k]);
        lemma_rest_doc_last(s.skip(k + 1));
        assert(tasks_doc(s.take(k + 1)).drop_last() =~= tasks_doc(s.take(k)).drop_last()
            + seq![','] + task_doc(s[k]));
        assert(rest_doc(s.skip(k)) == seq![','] + (task_doc(s[k]) + rest_doc(s.skip(k + 1))));
        assert(tasks_doc(s.take(k)).drop_last() + seq![','] + task_doc(s[k]) + rest_doc(
            s.skip(k + 1),
        ) =~= tasks_doc(s.take(k + 1)).drop_last() + rest_doc(s.skip(k + 1)));
        assert(tasks_doc(s) =~= tasks_doc(s.take(k)).drop_last() + rest_doc(s.skip(k)));
    }
}

/// Once the first `done` records of `s` have been read, position `j` holds
/// either the closing bracket (nothing remains) or a comma and the next
/// record.
pub proof fn lemma_doc_split(doc: Seq<char>, s: Seq<TaskModel>, done: Seq<TaskModel>, j: int)
    requires
        doc == tasks_doc(s),
        wf_task_seq(s),
        1 <= done.len() <= s.len(),
        s.take(done.len() as int) == done,
        j == tasks_doc(done).len() - 1,
    ensures
        done.len() == s.len() ==> j == doc.len() - 1 && doc[j] == ']',
        done.len() < s.len() ==> {
            &&& j + 1 < doc.len()
            &&& doc[j] == ','
            &&& task_at(doc, j + 1, s[done.len() as int])
            &&& j + 1 + task_doc(s[done.len() as int]).len() < doc.len()
        },
{
    let k = done.len() as int;
    lemma_tasks_doc_decompose(s, k);
    lemma_tasks_doc_last(done);
    assert(tasks_doc(s.take(k)) == tasks_doc(done));
    let pre = tasks_doc(done).drop_last();
    assert(pre.len() == j);
    let rest = rest_doc(s.skip(k));
    lemma_rest_doc_last(s.skip(k));
    assert(doc.len() == j + rest.len());
    assert forall|m: int| 0 <= m < rest.len() implies doc[j + m] == rest[m] by {
        assert(doc[j + m] == (pre + rest)[j + m]);
    }
    if k == s.len() {
        assert(s.skip(k) =~= Seq::<TaskModel>::empty());
        assert(doc[j] == rest[0]);
    } else {
        let u = s.skip(k);
        assert(u.len() > 0);
        assert(u[0] == s[k]);
        assert(doc[j] == rest[0]);
        lemma_rest_doc_last(u.skip(1));
        assert(doc.subrange(j, j + rest.len()) =~= rest);
        lemma_chop(doc, j, seq![','], task_doc(s[k]) + rest_doc(u.skip(1)));
        lemma_chop(doc, j + 1, task_doc(s[k]), rest_doc(u.skip(1)));
        assert(wf_task_seq(s));
        assert(wf_task(s[k]));
        assert(task_at(doc, j + 1, s[k]));
    }
}

/// `done` is the sequence of the first tasks of `s`.
pub open spec fn doc_prefix_ok(s: Seq<TaskModel>, done: Seq<TaskModel>) -> bool {
    &&& done.len() <= s.len()
    &&& s.take(done.len() as int) == done
}

/// Read a whole document. Succeeds exactly where the text is the document of
/// some well-formed task sequence; that sequence is returned and unique.
#[verifier::rlimit(100)]
pub fn parse_doc(doc: &Vec<char>) -> (r: Option<Vec<Task>>)
    ensures
        match r {
            Some(ts) => {
                &&& doc_matches(doc@, views_of(ts@))
                &&& forall|s: Seq<TaskModel>| doc_matches(doc@, s) ==> s == views_of(ts@)
            },
            None => forall|s: Seq<TaskModel>| !doc_matches(doc@, s),
        },
{
    let len = doc.len();
    if len < 2 {
        proof {
            assert forall|s: Seq<TaskModel>| !doc_matches(doc@, s) by {
                if doc_matches(doc@, s) {
                    lemma_tasks_doc_last(s);
                }
            }
        }
        return None;
    }
    if doc[0] != '[' {
        proof {
            assert forall|s: Seq<TaskModel>| !doc_matches(doc@, s) by {
                if doc_matches(doc@, s) {
                    lemma_tasks_doc_last(s);
                }
            }
        }
        return None;
    }
    if doc[1] == ']' {
        if len == 2 {
            let out: Vec<Task> = Vec::new();
            proof {
                assert(views_of(out@) =~= Seq::<TaskModel>::empty());
                assert(doc@ =~= tasks_doc(views_of(out@)));
                assert forall|s: Seq<TaskModel>|
                    doc_matches(doc@, s) implies s == views_of(out@) by {
                    if s.len() > 0 {
                        assert(doc@[1] == (seq!['['] + (task_doc(s[0]) + rest_doc(s.skip(1))))[1]);
                        assert(doc@[1] == task_doc(s[0])[0]);
                        assert(task_doc(s[0])[0] == lit_open()[0]);
                        assert(false);
                    }
                    assert(s =~= views_of(out@));
                }
            }
            return Some(out);
        } else {
            proof {
                assert forall|s: Seq<TaskModel>| !doc_matches(doc@, s) by {
                    if doc_matches(doc@, s) {
                        if s.len() > 0 {
                            assert(doc@[1] == (seq!['['] + (task_doc(s[0]) + rest_doc(
                                s.skip(1),
                            )))[1]);
                            assert(doc@[1] == task_doc(s[0])[0]);
                            assert(task_doc(s[0])[0] == lit_open()[0]);
                        }
                    }
                }
            }
            return None;
        }
    }
    // At least one record.
    let (t0, j0) = match parse_task(doc, 1) {
        None => {
            proof {
                assert forall|s: Seq<TaskModel>| !doc_matches(doc@, s) by {
                    if doc_matches(doc@, s) {
                        if s.len() == 0 {
                            assert(doc@[1] == seq!['[', ']'][1]);
                        } else {
                            lemma_rest_doc_last(s.skip(1));
                            assert(doc@.len() == 1 + task_doc(s[0]).len() + rest_doc(
                                s.skip(1),
                            ).len());
                            assert forall|m: int|
                                0 <= m < doc@.len() - 1 implies doc@[1 + m] == (task_doc(s[0])
                                + rest_doc(s.skip(1)))[m] by {
                                assert(doc@[1 + m] == (seq!['['] + (task_doc(s[0]) + rest_doc(
                                    s.skip(1),
                                )))[1 + m]);
                            }
                            assert(doc@.subrange(1, doc@.len() as int) =~= task_doc(s[0])
                                + rest_doc(s.skip(1)));
                            lemma_chop(doc@, 1, task_doc(s[0]), rest_doc(s.skip(1)));
                            assert(wf_task(s[0]));
                            assert(task_at(doc@, 1, s[0]));
                        }
                    }
                }
            }
            return None;
        },
        Some(v) => v,
    };
    let mut last_id = t0.id;
    let mut out: Vec<Task> = Vec::new();
    let ghost m0 = t0@;
    out.push(t0);
    let mut j = j0;
    proof {
        assert(views_of(out@) =~= seq![m0]);
        assert(doc@.subrange(1, 1) =~= Seq::<char>::empty());
        assert(doc@.subrange(0, 1) =~= seq!['[']);
        lemma_glue(doc@, 0, seq!['['], task_doc(m0));
        lemma_rest_doc_last(seq![m0].skip(1));
        assert(seq![m0].skip(1) =~= Seq::<TaskModel>::empty());
        assert(tasks_doc(seq![m0]) == seq!['['] + (task_doc(m0) + seq![']']));
        assert(tasks_doc(seq![m0]).drop_last() =~= seq!['['] + task_doc(m0));
        assert(doc@.subrange(0, j0 as int) == tasks_doc(views_of(out@)).drop_last());
        assert(wf_task_seq(seq![m0]));
        assert forall|s: Seq<TaskModel>|
            doc_matches(doc@, s) implies #[trigger] doc_prefix_ok(s, views_of(out@)) by {
            if s.len() == 0 {
                assert(doc@[1] == seq!['[', ']'][1]);
                assert(false);
            }
            lemma_rest_doc_last(s.skip(1));
            assert(doc@.len() == 1 + task_doc(s[0]).len() + rest_doc(s.skip(1)).len());
            assert forall|m: int|
                0 <= m < doc@.len() - 1 implies doc@[1 + m] == (task_doc(s[0]) + rest_doc(
                s.skip(1),
            ))[m] by {
                assert(doc@[1 + m] == (seq!['['] + (task_doc(s[0]) + rest_doc(s.skip(1))))[1 + m]);
            }
            assert(doc@.subrange(1, doc@.len() as int) =~= task_doc(s[0]) + rest_doc(s.skip(1)));
            lemma_chop(doc@, 1, task_doc(s[0]), rest_doc(s.skip(1)));
            assert(wf_task(s[0]));
            assert(task_at(doc@, 1, s[0]));
            assert(s[0] == m0);
            assert(s.take(1) =~= seq![m0]);
        }
    }
    loop
        invariant
            len == doc@.len(),
            1 <= j <= len,
            views_of(out@).len() >= 1,
            wf_task_seq(views_of(out@)),
            last_id == views_of(out@).last().id,
            j == tasks_doc(views_of(out@)).len() - 1,
            doc@.subrange(0, j as int) == tasks_doc(views_of(out@)).drop_last(),
            forall|s: Seq<TaskModel>|
                doc_matches(doc@, s) ==> #[trigger] doc_prefix_ok(s, views_of(out@)),
        decreases len - j,
    {
        let ghost done = views_of(out@);
        if j == len {
            proof {
                assert forall|s: Seq<TaskModel>| !doc_matches(doc@, s) by {
                    if doc_matches(doc@, s) {
                        assert(doc_prefix_ok(s, done));
                        lemma_doc_split(doc@, s, done, j as int);
                    }
                }
            }
            return None;
        }
        let c = doc[j];
        if c == ']' {
            if j + 1 == len {
                proof {
                    lemma_tasks_doc_last(done);
                    assert forall|m: int| 0 <= m < doc@.len() implies doc@[m] == tasks_doc(
                        done,
                    )[m] by {
                        if m < j {
                            assert(doc@[m] == doc@.subrange(0, j as int)[m]);
                            assert(tasks_doc(done)[m] == tasks_doc(done).drop_last()[m]);
                        } else {
                            assert(tasks_doc(done)[m] == tasks_doc(done).last());
                        }
                    }
                    assert(doc@ =~= tasks_doc(done));
                    assert(doc_matches(doc@, done));
                    assert forall|s: Seq<TaskModel>| doc_matches(doc@, s) implies s == done by {
                        assert(doc_prefix_ok(s, done));
                        lemma_doc_split(doc@, s, done, j as int);
                        if done.len() < s.len() {
                            assert(false);
                        }
                        assert(s.take(done.len() as int) =~= s);
                    }
                }
                return Some(out);
            } else {
                proof {
                    assert forall|s: Seq<TaskModel>| !doc_matches(doc@, s) by {
                        if doc_matches(doc@, s) {
                            assert(doc_prefix_ok(s, done));
                            lemma_doc_split(doc@, s, done, j as int);
                        }
                    }
                }
                return None;
            }
        } else if c == ',' {
            let (t, j2) = match parse_task(doc, j + 1) {
                None => {
                    proof {
                        assert forall|s: Seq<TaskModel>| !doc_matches(doc@, s) by {
                            if doc_matches(doc@, s) {
                                assert(doc_prefix_ok(s, done));
                                lemma_doc_split(doc@, s, done, j as int);
                            }
                        }
                    }
                    return None;
                },
                Some(v) => v,
            };
            if t.id <= last_id {
                proof {
                    assert forall|s: Seq<TaskModel>| !doc_matches(doc@, s) by {
                        if doc_matches(doc@, s) {
                            assert(doc_prefix_ok(s, done));
                            lemma_doc_split(doc@, s, done, j as int);
                            let k = done.len() as int;
                            assert(k < s.len());
                            assert(s[k] == t@);
                            assert(s[k - 1] == s.take(k)[k - 1]);
                            assert(s[k - 1].id == last_id);
                            assert(s[k - 1].id < s[k].id);
                        }
                    }
                }
                return None;
            }
            let tid = t.id;
            let ghost mt = t@;
            out.push(t);
            proof {
                let done2 = views_of(out@);
                assert(done2 =~= done.push(mt));
                assert(wf_task(mt));
                assert forall|a: int, b: int|
                    0 <= a < b < done2.len() implies done2[a].id < done2[b].id by {
                    if b < done.len() {
                        assert(done[a].id < done[b].id);
                    } else {
                        assert(done2[b] == mt);
                        if a < done.len() - 1 {
                            assert(done[a].id < done.last().id);
                        }
                    }
                }
                assert(sorted_by_id(done2));
                assert(wf_task_seq(done2));
                lemma_tasks_doc_snoc(done, mt);
                lemma_tasks_doc_last(done);
                assert(doc@.subrange(j as int, j + 1) =~= seq![',']);
                lemma_glue(doc@, j as int, seq![','], task_doc(mt));
                lemma_glue(
                    doc@,
                    0,
                    tasks_doc(done).drop_last(),
                    seq![','] + task_doc(mt),
                );
                assert(tasks_doc(done2).drop_last() =~= tasks_doc(done).drop_last() + (seq![',']
                    + task_doc(mt)));
                assert(doc@.subrange(0, j2 as int) == tasks_doc(done2).drop_last());
                assert(j2 == tasks_doc(done2).len() - 1);
                assert(done2.last() == mt);
                assert forall|s: Seq<TaskModel>|
                    doc_matches(doc@, s) implies #[trigger] doc_prefix_ok(s, done2) by {
                    assert(doc_prefix_ok(s, done));
                    lemma_doc_split(doc@, s, done, j as int);
                    let k = done.len() as int;
                    assert(k < s.len());
                    assert(s[k] == mt);
                    assert(s.take(k + 1) =~= s.take(k).push(s[k]));
                }
            }
            last_id = tid;
            j = j2;
        } else {
            proof {
                assert forall|s: Seq<TaskModel>| !doc_matches(doc@, s) by {
                    if doc_matches(doc@, s) {
                        assert(doc_prefix_ok(s, done));
                        lemma_doc_split(doc@, s, done, j as int);
                    }
                }
            }
            return None;
        }
    }
}

// ---------------------------------------------------------------------------
// Injectivity: two well-formed task sequences with the same document are the
// same sequence. Together with the construction contract this is the round
// trip: a store rebuilt from a rendered document holds exactly the rendered
// tasks.
// ---------------------------------------------------------------------------

/// One escaping step, read off the document.
pub proof fn lemma_str_at_step(doc: Seq<char>, i: int, c: Seq<char>)
    requires
        str_at(doc, i, c),
        c.len() > 0,
    ensures
        doc[i] == esc_char(c[0])[0],
        esc_char(c[0]).len() == 2 ==> doc[i + 1] == esc_char(c[0])[1],
        str_at(doc, i + esc_char(c[0]).len(), c.skip(1)),
{
    let e = esc(c);
    let ec = esc_char(c[0]);
    let rest = esc(c.skip(1));
    assert(e == ec + rest);
    lemma_chop(doc, i, ec, rest);
    assert(doc[i] == doc.subrange(i, i + ec.len())[0]);
    if ec.len() == 2 {
        assert(doc[i + 1] == doc.subrange(i, i + ec.len())[1]);
    }
    assert(str_at(doc, i + ec.len(), c.skip(1)));
}

/// At one position of the document, at most one text stands escaped: the
/// escape of a character never begins with a bare quote, and a backslash
/// announces exactly the next character.
pub proof fn lemma_str_at_unique(doc: Seq<char>, i: int, c1: Seq<char>, c2: Seq<char>)
    requires
        str_at(doc, i, c1),
        str_at(doc, i, c2),
    ensures
        c1 == c2,
    decreases c1.len(),
{
    if c1.len() == 0 && c2.len() == 0 {
        assert(c1 =~= c2);
    } else if c1.len() == 0 {
        assert(esc(c1).len() == 0);
        assert(doc[i] == '"');
        lemma_str_at_step(doc, i, c2);
        assert(false);
    } else if c2.len() == 0 {
        assert(esc(c2).len() == 0);
        assert(doc[i] == '"');
        lemma_str_at_step(doc, i, c1);
        assert(false);
    } else {
        lemma_str_at_step(doc, i, c1);
        lemma_str_at_step(doc, i, c2);
        if c1[0] == '"' || c1[0] == '\\' {
            assert(doc[i] == '\\');
            assert(c2[0] == '"' || c2[0] == '\\');
            assert(doc[i + 1] == c1[0] && doc[i + 1] == c2[0]);
            lemma_str_at_unique(doc, i + 2, c1.skip(1), c2.skip(1));
        } else {
            assert(c1[0] == doc[i]);
            assert(!(c2[0] == '"' || c2[0] == '\\'));
            assert(c2[0] == doc[i]);
            lemma_str_at_unique(doc, i + 1, c1.skip(1), c2.skip(1));
        }
        assert(c1.len() == c2.len());
        assert forall|m: int| 0 <= m < c1.len() implies c1[m] == c2[m] by {
            if m > 0 {
                assert(c1[m] == c1.skip(1)[m - 1]);
                assert(c2[m] == c2.skip(1)[m - 1]);
            }
        }
        assert(c1 =~= c2);
    }
}

/// At one position of the document, at most one task has its record.
pub proof fn lemma_task_at_unique(doc: Seq<char>, i: int, t1: TaskModel, t2: TaskModel)
    requires
        task_at(doc, i, t1),
        task_at(doc, i, t2),
    ensures
        t1 == t2,
{
    lemma_task_at_parts(doc, i, t1);
    lemma_task_at_parts(doc, i, t2);
    let p1 = i + lit_open().len();
    lemma_num_at_unique(doc, p1, t1.id, t2.id);
    let p3 = p1 + dec_digits(t1.id as nat).len() + lit_desc().len();
    lemma_str_at_unique(doc, p3, t1.description, t2.description);
    assert(head_end(i, t1.id, t1.description) == head_end(i, t2.id, t2.description));
    lemma_tail_unique(
        doc,
        head_end(i, t1.id, t1.description),
        t1.completed,
        t1.created_at,
        t2.completed,
        t2.created_at,
    );
}

/// From one position on, at most one task sequence has its records and the
/// closing bracket.
pub proof fn lemma_rest_doc_unique(doc: Seq<char>, j: int, u1: Seq<TaskModel>, u2: Seq<TaskModel>)
    requires
        0 <= j <= doc.len(),
        doc.subrange(j, doc.len() as int) == rest_doc(u1),
        doc.subrange(j, doc.len() as int) == rest_doc(u2),
        forall|m: int| 0 <= m < u1.len() ==> wf_task(#[trigger] u1[m]),
        forall|m: int| 0 <= m < u2.len() ==> wf_task(#[trigger] u2[m]),
    ensures
        u1 == u2,
    decreases u1.len(),
{
    lemma_rest_doc_last(u1);
    lemma_rest_doc_last(u2);
    assert(doc[j] == doc.subrange(j, doc.len() as int)[0]);
    if u1.len() == 0 && u2.len() == 0 {
        assert(u1 =~= u2);
    } else if u1.len() == 0 || u2.len() == 0 {
        assert(false);
    } else {
        lemma_chop(doc, j, seq![','], task_doc(u1[0]) + rest_doc(u1.skip(1)));
        lemma_chop(doc, j + 1, task_doc(u1[0]), rest_doc(u1.skip(1)));
        lemma_chop(doc, j, seq![','], task_doc(u2[0]) + rest_doc(u2.skip(1)));
        lemma_chop(doc, j + 1, task_doc(u2[0]), rest_doc(u2.skip(1)));
        assert(wf_task(u1[0]) && wf_task(u2[0]));
        assert(task_at(doc, j + 1, u1[0]));
        assert(task_at(doc, j + 1, u2[0]));
        lemma_task_at_unique(doc, j + 1, u1[0], u2[0]);
        let j2 = j + 1 + task_doc(u1[0]).len() as int;
        assert forall|m: int| 0 <= m < u1.skip(1).len() implies wf_task(
            #[trigger] u1.skip(1)[m],
        ) by {
            assert(u1.skip(1)[m] == u1[m + 1]);
        }
        assert forall|m: int| 0 <= m < u2.skip(1).len() implies wf_task(
            #[trigger] u2.skip(1)[m],
        ) by {
            assert(u2.skip(1)[m] == u2[m + 1]);
        }
        lemma_rest_doc_unique(doc, j2, u1.skip(1), u2.skip(1));
        assert(u1.len() == u2.len());
        assert forall|m: int| 0 <= m < u1.len() implies u1[m] == u2[m] by {
            if m > 0 {
                assert(u1[m] == u1.skip(1)[m - 1]);
                assert(u2[m] == u2.skip(1)[m - 1]);
            }
        }
        assert(u1 =~= u2);
    }
}

/// Well-formed task sequences render to distinct documents: reading a
/// rendered document back yields exactly the rendered tasks.
pub proof fn lemma_document_injective(s1: Seq<TaskModel>, s2: Seq<TaskModel>)
    requires
        wf_task_seq(s1),
        wf_task_seq(s2),
        tasks_doc(s1) == tasks_doc(s2),
    ensures
        s1 == s2,
{
    let doc = tasks_doc(s1);
    lemma_tasks_doc_last(s1);
    lemma_tasks_doc_last(s2);
    if s1.len() == 0 && s2.len() == 0 {
        assert(s1 =~= s2);
    } else if s1.len() == 0 {
        assert(doc[1] == seq!['[', ']'][1]);
        assert(doc[1] == (seq!['['] + (task_doc(s2[0]) + rest_doc(s2.skip(1))))[1]);
        assert(doc[1] == task_doc(s2[0])[0]);
        assert(task_doc(s2[0])[0] == lit_open()[0]);
        assert(false);
    } else if s2.len() == 0 {
        assert(doc[1] == seq!['[', ']'][1]);
        assert(doc[1] == (seq!['['] + (task_doc(s1[0]) + rest_doc(s1.skip(1))))[1]);
        assert(doc[1] == task_doc(s1[0])[0]);
        assert(task_doc(s1[0])[0] == lit_open()[0]);
        assert(false);
    } else {
        lemma_rest_doc_last(s1.skip(1));
        lemma_rest_doc_last(s2.skip(1));
        assert forall|m: int|
            0 <= m < doc.len() - 1 implies doc[1 + m] == (task_doc(s1[0]) + rest_doc(
            s1.skip(1),
        ))[m] by {
            assert(doc[1 + m] == (seq!['['] + (task_doc(s1[0]) + rest_doc(s1.skip(1))))[1 + m]);
        }
        assert(doc.subrange(1, doc.len() as int) =~= task_doc(s1[0]) + rest_doc(s1.skip(1)));
        assert forall|m: int|
            0 <= m < doc.len() - 1 implies doc[1 + m] == (task_doc(s2[0]) + rest_doc(
            s2.skip(1),
        ))[m] by {
            assert(doc[1 + m] == (seq!['['] + (task_doc(s2[0]) + rest_doc(s2.skip(1))))[1 + m]);
        }
        assert(doc.subrange(1, doc.len() as int) =~= task_doc(s2[0]) + rest_doc(s2.skip(1)));
        lemma_chop(doc, 1, task_doc(s1[0]), rest_doc(s1.skip(1)));
        lemma_chop(doc, 1, task_doc(s2[0]), rest_doc(s2.skip(1)));
        assert(wf_task(s1[0]) && wf_task(s2[0]));
        assert(task_at(doc, 1, s1[0]));
        assert(task_at(doc, 1, s2[0]));
        lemma_task_at_unique(doc, 1, s1[0], s2[0]);
        assert forall|m: int| 0 <= m < s1.skip(1).len() implies wf_task(
            #[trigger] s1.skip(1)[m],
        ) by {
            assert(s1.skip(1)[m] == s1[m + 1]);
        }
        assert forall|m: int| 0 <= m < s2.skip(1).len() implies wf_task(
            #[trigger] s2.skip(1)[m],
        ) by {
            assert(s2.skip(1)[m] == s2[m + 1]);
        }
        lemma_rest_doc_unique(doc, 1 + task_doc(s1[0]).len() as int, s1.skip(1), s2.skip(1));
        assert(s1.len() == s2.len());
        assert forall|m: int| 0 <= m < s1.len() implies s1[m] == s2[m] by {
            if m > 0 {
                assert(s1[m] == s1.skip(1)[m - 1]);
                assert(s2[m] == s2.skip(1)[m - 1]);
            }
        }
        assert(s1 =~= s2);
    }
}

} // verus!
