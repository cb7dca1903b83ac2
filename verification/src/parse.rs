//! The parser for the persisted format, and the proofs that the format is
//! unambiguous: a serialized collection can be read back in exactly one way,
//! so parsing inverts serialization.

use vstd::prelude::*;
use crate::codec::{
    bool_text, dec, dec_digit, esc, esc_char, is_digit, lemma_esc_app, lemma_esc_one,
    lemma_ser_tasks_app, lemma_ser_tasks_one, quoted, ser_task, ser_tasks, spec_parse,
    spec_serialize, status_text,
};
use crate::task::{tasks_view, DbError, Status, Task, TaskView, TasksDataBase};

verus! {

/// The shape of one escaped character: one plain character, or a backslash
/// pair; never a bare quote or line break.
pub proof fn lemma_esc_char_first(c: char)
    ensures
        1 <= esc_char(c).len() <= 2,
        esc_char(c)[0] != '"',
        esc_char(c)[0] != '\n',
        esc_char(c).len() == 2 ==> esc_char(c)[0] == '\\' && (esc_char(c)[1] == '"' || esc_char(
            c,
        )[1] == '\\' || esc_char(c)[1] == 'n'),
        esc_char(c).len() == 1 ==> esc_char(c)[0] == c && c != '"' && c != '\\' && c != '\n',
{
}

/// Escaped text is at least as long as its source, and empty exactly when
/// the source is.
pub proof fn lemma_esc_len(s: Seq<char>)
    ensures
        s.len() <= esc(s).len() <= 2 * s.len(),
    decreases s.len(),
{
    if s.len() == 0 {
    } else {
        lemma_esc_char_first(s[0]);
        lemma_esc_len(s.drop_first());
    }
}

/// Escaping is prefix-determined: when the escape of one text is a prefix of
/// the escape of another, the first text is a prefix of the second, and the
/// escapes split accordingly.
pub proof fn lemma_esc_prefix(a: Seq<char>, b: Seq<char>)
    requires
        esc(a).len() <= esc(b).len(),
        esc(a) == esc(b).take(esc(a).len() as int),
    ensures
        a.len() <= b.len(),
        a == b.take(a.len() as int),
        esc(b) == esc(a) + esc(b.skip(a.len() as int)),
    decreases a.len(),
{
    if a.len() == 0 {
        assert(esc(a) == Seq::<char>::empty());
        assert(a =~= b.take(0));
        assert(b.skip(0) =~= b);
        assert(esc(b) =~= esc(a) + esc(b.skip(0)));
    } else {
        lemma_esc_len(a);
        if b.len() == 0 {
            assert(esc(b) == Seq::<char>::empty());
            assert(false);
        }
        let a0 = a[0];
        let b0 = b[0];
        let at = a.drop_first();
        let bt = b.drop_first();
        assert(esc(a) == esc_char(a0) + esc(at));
        assert(esc(b) == esc_char(b0) + esc(bt));
        lemma_esc_char_first(a0);
        lemma_esc_char_first(b0);
        assert(esc(a)[0] == esc_char(a0)[0]);
        assert(esc(b)[0] == esc_char(b0)[0]);
        assert(esc(a)[0] == esc(b)[0]);
        if esc_char(a0).len() == 2 {
            assert(esc_char(a0)[0] == '\\');
            if esc_char(b0).len() == 1 {
                assert(esc_char(b0)[0] == b0 && b0 != '\\');
                assert(false);
            }
            assert(esc(a).len() >= 2);
            assert(esc(a)[1] == esc_char(a0)[1]);
            assert(esc(b)[1] == esc_char(b0)[1]);
            assert(esc(a)[1] == esc(b)[1]);
            assert(a0 == b0);
        } else {
            assert(esc_char(a0)[0] == a0);
            if esc_char(b0).len() == 2 {
                assert(esc_char(b0)[0] == '\\');
                assert(a0 == '\\');
                assert(false);
            }
            assert(b0 == a0);
        }
        let k = esc_char(a0).len() as int;
        assert(esc_char(b0) == esc_char(a0));
        assert(esc(at) =~= esc(a).skip(k));
        assert(esc(bt) =~= esc(b).skip(k));
        assert(esc(at) =~= esc(bt).take(esc(at).len() as int));
        lemma_esc_prefix(at, bt);
        assert(a =~= seq![a0] + at);
        assert(a =~= b.take(a.len() as int));
        assert(b.skip(a.len() as int) =~= bt.skip(at.len() as int));
        assert(esc(b) =~= esc(a) + esc(b.skip(a.len() as int)));
    }
}

/// Two quoted fields read from the same position of the same text are the
/// same field, ending at the same place.
pub proof fn lemma_quoted_prefix(a: Seq<char>, b: Seq<char>, s: Seq<char>, pos: int, ja: int, jb: int)
    requires
        0 <= pos <= ja <= s.len(),
        pos <= jb <= s.len(),
        s.subrange(pos, ja) == quoted(a),
        s.subrange(pos, jb) == quoted(b),
    ensures
        a == b,
        ja == jb,
    decreases (if ja <= jb { 0int } else { 1int }),
{
    if ja <= jb {
        assert(ja - pos == quoted(a).len() && quoted(a).len() == esc(a).len() + 2);
        assert(jb - pos == quoted(b).len() && quoted(b).len() == esc(b).len() + 2);
        assert(forall|i: int| 0 <= i < esc(a).len() ==> quoted(a)[i + 1] == esc(a)[i]);
        assert(forall|i: int| 0 <= i < esc(b).len() ==> quoted(b)[i + 1] == esc(b)[i]);
        assert(forall|i: int| pos <= i < ja ==> s[i] == quoted(a)[i - pos]);
        assert(forall|i: int| pos <= i < jb ==> s[i] == quoted(b)[i - pos]);
        assert(esc(a) =~= s.subrange(pos + 1, ja - 1));
        assert(esc(b) =~= s.subrange(pos + 1, jb - 1));
        assert(esc(a) =~= esc(b).take(esc(a).len() as int));
        lemma_esc_prefix(a, b);
        if ja < jb {
            assert(a.len() < b.len()) by {
                if a.len() == b.len() {
                    assert(a == b.take(a.len() as int));
                    assert(b.take(b.len() as int) =~= b);
                    assert(esc(a).len() == esc(b).len());
                }
            }
            let rest = b.skip(a.len() as int);
            assert(rest.len() > 0);
            assert(esc(rest) == esc_char(rest[0]) + esc(rest.drop_first()));
            lemma_esc_char_first(rest[0]);
            assert(esc(b)[esc(a).len() as int] == esc(rest)[0]);
            assert(s[ja - 1] == esc(b)[ja - 1 - pos - 1]);
            assert(s[ja - 1] == quoted(a)[ja - pos - 1]);
            assert(quoted(a)[ja - pos - 1] == '"');
            assert(false);
        }
        assert(esc(a).len() == esc(b).len());
        assert(esc(b.skip(a.len() as int)).len() == 0);
        lemma_esc_len(b.skip(a.len() as int));
        assert(b.skip(a.len() as int).len() == 0);
        assert(a.len() == b.len());
        assert(b.take(a.len() as int) =~= b);
        assert(a == b);
    } else {
        lemma_quoted_prefix(b, a, s, pos, jb, ja);
    }
}

/// Two quoted fields at the head of the same text are the same field with
/// the same remainder.
pub proof fn lemma_quoted_tail(a: Seq<char>, b: Seq<char>, ra: Seq<char>, rb: Seq<char>)
    requires
        quoted(a) + ra == quoted(b) + rb,
    ensures
        a == b,
        ra == rb,
{
    let s = quoted(a) + ra;
    assert(s.subrange(0, quoted(a).len() as int) =~= quoted(a));
    assert(s.subrange(0, quoted(b).len() as int) =~= quoted(b));
    lemma_quoted_prefix(a, b, s, 0, quoted(a).len() as int, quoted(b).len() as int);
    assert(ra =~= s.skip(quoted(a).len() as int));
    assert(rb =~= s.skip(quoted(b).len() as int));
    assert(ra == rb);
}

/// The numeric value a digit character denotes, or minus one for any other
/// character.
pub open spec fn digit_val(c: char) -> int {
    if c == '0' {
        0
    } else if c == '1' {
        1
    } else if c == '2' {
        2
    } else if c == '3' {
        3
    } else if c == '4' {
        4
    } else if c == '5' {
        5
    } else if c == '6' {
        6
    } else if c == '7' {
        7
    } else if c == '8' {
        8
    } else if c == '9' {
        9
    } else {
        -1
    }
}

/// The numeric value a digit string denotes.
pub open spec fn dec_val(ds: Seq<char>) -> int
    decreases ds.len(),
{
    if ds.len() == 0 {
        0
    } else {
        dec_val(ds.drop_last()) * 10 + digit_val(ds.last())
    }
}

/// Digit characters and values below ten correspond one to one.
pub proof fn lemma_dec_digit(d: int)
    requires
        0 <= d <= 9,
    ensures
        is_digit(dec_digit(d)),
        digit_val(dec_digit(d)) == d,
        dec_digit(d) == '0' <==> d == 0,
{
    reveal(dec_digit);
}

/// A digit character is its own denoted digit.
pub proof fn lemma_digit_roundtrip(c: char)
    requires
        is_digit(c),
    ensures
        dec_digit(digit_val(c)) == c,
{
    reveal(dec_digit);
}

/// The decimal rendering of a value: nonempty, all digits, no leading zero,
/// and denoting the value itself.
pub proof fn lemma_dec_props(n: nat)
    ensures
        dec(n).len() >= 1,
        forall|k: int| 0 <= k < dec(n).len() ==> is_digit(#[trigger] dec(n)[k]),
        n > 0 ==> dec(n)[0] != '0',
        dec_val(dec(n)) == n,
    decreases n,
{
    if n < 10 {
        lemma_dec_digit(n as int);
        assert(dec(n) == seq![dec_digit(n as int)]);
        assert(dec(n).drop_last() =~= Seq::<char>::empty());
        assert(dec(n).last() == dec_digit(n as int));
        assert(dec_val(Seq::<char>::empty()) == 0);
        assert(dec_val(dec(n)) == n);
    } else {
        lemma_dec_props(n / 10);
        lemma_dec_digit((n % 10) as int);
        vstd::arithmetic::div_mod::lemma_fundamental_div_mod(n as int, 10);
        assert(dec(n) == dec(n / 10).push(dec_digit((n % 10) as int)));
        assert(dec(n).drop_last() =~= dec(n / 10));
        assert(dec(n)[0] == dec(n / 10)[0]);
        assert(dec_val(dec(n)) == dec_val(dec(n / 10)) * 10 + (n % 10));
    }
}

/// A digit string without a leading zero denotes at least one, and at least
/// ten when it has two or more digits.
pub proof fn lemma_dec_val_bounds(ds: Seq<char>)
    requires
        forall|k: int| 0 <= k < ds.len() ==> is_digit(#[trigger] ds[k]),
    ensures
        dec_val(ds) >= 0,
        ds.len() >= 1 && ds[0] != '0' ==> dec_val(ds) >= 1,
        ds.len() >= 2 && ds[0] != '0' ==> dec_val(ds) >= 10,
    decreases ds.len(),
{
    if ds.len() == 0 {
    } else {
        let dsp = ds.drop_last();
        assert(forall|k: int| 0 <= k < dsp.len() ==> dsp[k] == ds[k]);
        lemma_dec_val_bounds(dsp);
        assert(is_digit(ds.last()));
        assert(digit_val(ds.last()) >= 0);
        if ds.len() == 1 && ds[0] != '0' {
            assert(is_digit(ds[0]));
            assert(ds.last() == ds[0]);
            assert(dsp =~= Seq::<char>::empty());
            assert(dec_val(dsp) == 0);
            assert(digit_val(ds[0]) >= 1);
        }
    }
}

/// A digit string denotes at least as much as any of its prefixes.
pub proof fn lemma_dec_val_prefix(ds: Seq<char>, k: int)
    requires
        0 <= k <= ds.len(),
        forall|i: int| 0 <= i < ds.len() ==> is_digit(#[trigger] ds[i]),
    ensures
        dec_val(ds.take(k)) <= dec_val(ds),
    decreases ds.len(),
{
    lemma_dec_val_bounds(ds);
    if k == ds.len() {
        assert(ds.take(k) =~= ds);
    } else {
        let dsp = ds.drop_last();
        assert(forall|i: int| 0 <= i < dsp.len() ==> dsp[i] == ds[i]);
        lemma_dec_val_bounds(dsp);
        assert(is_digit(ds.last()));
        assert(digit_val(ds.last()) >= 0);
        assert(dec_val(ds) >= dec_val(dsp));
        assert(ds.take(k) =~= dsp.take(k));
        lemma_dec_val_prefix(dsp, k);
    }
}

/// A nonempty digit string without a leading zero, denoting a value, is that
/// value's decimal rendering.
pub proof fn lemma_dec_canonical(ds: Seq<char>)
    requires
        ds.len() >= 1,
        forall|k: int| 0 <= k < ds.len() ==> is_digit(#[trigger] ds[k]),
        ds[0] != '0' || ds.len() == 1,
    ensures
        dec_val(ds) >= 0,
        dec(dec_val(ds) as nat) == ds,
    decreases ds.len(),
{
    lemma_dec_val_bounds(ds);
    if ds.len() == 1 {
        assert(is_digit(ds[0]));
        lemma_digit_roundtrip(ds[0]);
        assert(ds.drop_last() =~= Seq::<char>::empty());
        assert(dec_val(Seq::<char>::empty()) == 0);
        assert(ds.last() == ds[0]);
        assert(dec_val(ds) == digit_val(ds[0]));
        assert(dec(dec_val(ds) as nat) =~= ds);
    } else {
        let dsp = ds.drop_last();
        assert(forall|k: int| 0 <= k < dsp.len() ==> dsp[k] == ds[k]);
        lemma_dec_canonical(dsp);
        lemma_dec_val_bounds(dsp);
        let d = digit_val(ds.last());
        assert(is_digit(ds.last()));
        assert(0 <= d <= 9);
        let v = dec_val(ds);
        assert(v == dec_val(dsp) * 10 + d);
        vstd::arithmetic::div_mod::lemma_fundamental_div_mod_converse(v, 10, dec_val(dsp), d);
        assert(v / 10 == dec_val(dsp) && v % 10 == d);
        assert(v >= 10);
        assert(dec(v as nat) == dec((v / 10) as nat).push(dec_digit((v % 10) as int)));
        lemma_digit_roundtrip(ds.last());
        assert(dec(v as nat) =~= ds);
    }
}

/// Two decimal renderings at the head of the same text, each followed by a
/// non-digit or the end, denote the same value with the same remainder.
pub proof fn lemma_dec_tail(m: nat, n: nat, ra: Seq<char>, rb: Seq<char>)
    requires
        dec(m) + ra == dec(n) + rb,
        ra.len() == 0 || !is_digit(ra[0]),
        rb.len() == 0 || !is_digit(rb[0]),
    ensures
        m == n,
        ra == rb,
{
    lemma_dec_props(m);
    lemma_dec_props(n);
    let s = dec(m) + ra;
    if dec(m).len() < dec(n).len() {
        assert(ra.len() > 0);
        assert(s[dec(m).len() as int] == ra[0]);
        assert(s[dec(m).len() as int] == dec(n)[dec(m).len() as int]);
        assert(is_digit(dec(n)[dec(m).len() as int]));
        assert(false);
    }
    if dec(n).len() < dec(m).len() {
        assert(rb.len() > 0);
        assert(s[dec(n).len() as int] == rb[0]);
        assert(s[dec(n).len() as int] == dec(m)[dec(n).len() as int]);
        assert(is_digit(dec(m)[dec(n).len() as int]));
        assert(false);
    }
    assert(dec(m).len() == dec(n).len());
    assert(forall|i: int|
        0 <= i < dec(m).len() ==> #[trigger] dec(m)[i] == s[i] && #[trigger] dec(n)[i] == s[i]);
    assert(dec(m) =~= dec(n));
    assert(dec_val(dec(m)) == dec_val(dec(n)));
    assert(ra =~= s.skip(dec(m).len() as int));
    assert(rb =~= s.skip(dec(n).len() as int));
    assert(ra == rb);
}

/// Two written statuses at the head of the same text are the same status
/// with the same remainder.
pub proof fn lemma_status_tail(s1: Status, s2: Status, ra: Seq<char>, rb: Seq<char>)
    requires
        status_text(s1) + ra == status_text(s2) + rb,
    ensures
        s1 == s2,
        ra == rb,
{
    reveal_strlit("Done");
    reveal_strlit("Todo");
    let s = status_text(s1) + ra;
    if s1 != s2 {
        assert(s[0] == status_text(s1)[0]);
        assert(s[0] == status_text(s2)[0]);
        assert(false);
    }
    assert(ra =~= s.skip(status_text(s1).len() as int));
    assert(rb =~= s.skip(status_text(s2).len() as int));
    assert(ra == rb);
}

/// Two written booleans at the head of the same text are the same boolean
/// with the same remainder.
pub proof fn lemma_bool_tail(b1: bool, b2: bool, ra: Seq<char>, rb: Seq<char>)
    requires
        bool_text(b1) + ra == bool_text(b2) + rb,
    ensures
        b1 == b2,
        ra == rb,
{
    reveal_strlit("true");
    reveal_strlit("false");
    let s = bool_text(b1) + ra;
    if b1 != b2 {
        assert(s[0] == bool_text(b1)[0]);
        assert(s[0] == bool_text(b2)[0]);
        assert(false);
    }
    assert(ra =~= s.skip(bool_text(b1).len() as int));
    assert(rb =~= s.skip(bool_text(b2).len() as int));
    assert(ra == rb);
}

/// A shared leading piece of two equal texts peels off.
pub proof fn lemma_label_peel(l: Seq<char>, x: Seq<char>, y: Seq<char>)
    requires
        l + x == l + y,
    ensures
        x == y,
{
    assert(x =~= (l + x).skip(l.len() as int));
    assert(y =~= (l + y).skip(l.len() as int));
}

/// A written record regrouped from the inside out: the same text with the
/// concatenations nested to the right.
#[verifier::rlimit(100)]
pub proof fn lemma_ser_task_nested(t: TaskView)
    ensures
        ser_task(t) == "  - name: "@ + (quoted(t.name) + ("\n    description: "@ + (quoted(
            t.description,
        ) + ("\n    date_created: "@ + (quoted(t.date_created) + ("\n    date_due: "@ + (quoted(
            t.date_due,
        ) + ("\n    status: "@ + (status_text(t.status) + ("\n    repeats: "@ + (bool_text(
            t.repeats,
        ) + ("\n    repeats_every: "@ + (quoted(t.repeats_every) + ("\n    id: "@ + (dec(
            t.id as nat,
        ) + "\n"@))))))))))))))),
{
    crate::codec::lemma_concat_nest(
        "  - name: "@,
        quoted(t.name),
        "\n    description: "@,
        quoted(t.description),
        "\n    date_created: "@,
        quoted(t.date_created),
        "\n    date_due: "@,
        quoted(t.date_due),
        "\n    status: "@,
        status_text(t.status),
        "\n    repeats: "@,
        bool_text(t.repeats),
        "\n    repeats_every: "@,
        quoted(t.repeats_every),
        "\n    id: "@,
        dec(t.id as nat),
        "\n"@,
    );
}

/// Two task records at the head of the same text are the same record with
/// the same remainder.
#[verifier::rlimit(100)]
pub proof fn lemma_ser_task_tail(t1: TaskView, t2: TaskView, r1: Seq<char>, r2: Seq<char>)
    requires
        ser_task(t1) + r1 == ser_task(t2) + r2,
    ensures
        t1 == t2,
        r1 == r2,
{
    let g1 = dec(t1.id as nat) + "\n"@;
    let f1 = "\n    id: "@ + g1;
    let e1 = quoted(t1.repeats_every) + f1;
    let d1 = "\n    repeats_every: "@ + e1;
    let c1 = bool_text(t1.repeats) + d1;
    let b1 = "\n    repeats: "@ + c1;
    let a1 = status_text(t1.status) + b1;
    let z1 = "\n    status: "@ + a1;
    let y1 = quoted(t1.date_due) + z1;
    let x1 = "\n    date_due: "@ + y1;
    let w1 = quoted(t1.date_created) + x1;
    let v1 = "\n    date_created: "@ + w1;
    let u1 = quoted(t1.description) + v1;
    let s1 = "\n    description: "@ + u1;
    let p1 = quoted(t1.name) + s1;
    lemma_ser_task_nested(t1);
    assert(ser_task(t1) == "  - name: "@ + p1);
    let g2 = dec(t2.id as nat) + "\n"@;
    let f2 = "\n    id: "@ + g2;
    let e2 = quoted(t2.repeats_every) + f2;
    let d2 = "\n    repeats_every: "@ + e2;
    let c2 = bool_text(t2.repeats) + d2;
    let b2 = "\n    repeats: "@ + c2;
    let a2 = status_text(t2.status) + b2;
    let z2 = "\n    status: "@ + a2;
    let y2 = quoted(t2.date_due) + z2;
    let x2 = "\n    date_due: "@ + y2;
    let w2 = quoted(t2.date_created) + x2;
    let v2 = "\n    date_created: "@ + w2;
    let u2 = quoted(t2.description) + v2;
    let s2 = "\n    description: "@ + u2;
    let p2 = quoted(t2.name) + s2;
    lemma_ser_task_nested(t2);
    assert(ser_task(t2) == "  - name: "@ + p2);
    assert(("  - name: "@ + p1) + r1 =~= "  - name: "@ + (p1 + r1));
    assert(("  - name: "@ + p2) + r2 =~= "  - name: "@ + (p2 + r2));
    lemma_label_peel("  - name: "@, p1 + r1, p2 + r2);
    assert((quoted(t1.name) + s1) + r1 =~= quoted(t1.name) + (s1 + r1));
    assert((quoted(t2.name) + s2) + r2 =~= quoted(t2.name) + (s2 + r2));
    lemma_quoted_tail(t1.name, t2.name, s1 + r1, s2 + r2);
    assert(("\n    description: "@ + u1) + r1 =~= "\n    description: "@ + (u1 + r1));
    assert(("\n    description: "@ + u2) + r2 =~= "\n    description: "@ + (u2 + r2));
    lemma_label_peel("\n    description: "@, u1 + r1, u2 + r2);
    assert((quoted(t1.description) + v1) + r1 =~= quoted(t1.description) + (v1 + r1));
    assert((quoted(t2.description) + v2) + r2 =~= quoted(t2.description) + (v2 + r2));
    lemma_quoted_tail(t1.description, t2.description, v1 + r1, v2 + r2);
    assert(("\n    date_created: "@ + w1) + r1 =~= "\n    date_created: "@ + (w1 + r1));
    assert(("\n    date_created: "@ + w2) + r2 =~= "\n    date_created: "@ + (w2 + r2));
    lemma_label_peel("\n    date_created: "@, w1 + r1, w2 + r2);
    assert((quoted(t1.date_created) + x1) + r1 =~= quoted(t1.date_created) + (x1 + r1));
    assert((quoted(t2.date_created) + x2) + r2 =~= quoted(t2.date_created) + (x2 + r2));
    lemma_quoted_tail(t1.date_created, t2.date_created, x1 + r1, x2 + r2);
    assert(("\n    date_due: "@ + y1) + r1 =~= "\n    date_due: "@ + (y1 + r1));
    assert(("\n    date_due: "@ + y2) + r2 =~= "\n    date_due: "@ + (y2 + r2));
    lemma_label_peel("\n    date_due: "@, y1 + r1, y2 + r2);
    assert((quoted(t1.date_due) + z1) + r1 =~= quoted(t1.date_due) + (z1 + r1));
    assert((quoted(t2.date_due) + z2) + r2 =~= quoted(t2.date_due) + (z2 + r2));
    lemma_quoted_tail(t1.date_due, t2.date_due, z1 + r1, z2 + r2);
    assert(("\n    status: "@ + a1) + r1 =~= "\n    status: "@ + (a1 + r1));
    assert(("\n    status: "@ + a2) + r2 =~= "\n    status: "@ + (a2 + r2));
    lemma_label_peel("\n    status: "@, a1 + r1, a2 + r2);
    assert((status_text(t1.status) + b1) + r1 =~= status_text(t1.status) + (b1 + r1));
    assert((status_text(t2.status) + b2) + r2 =~= status_text(t2.status) + (b2 + r2));
    lemma_status_tail(t1.status, t2.status, b1 + r1, b2 + r2);
    assert(("\n    repeats: "@ + c1) + r1 =~= "\n    repeats: "@ + (c1 + r1));
    assert(("\n    repeats: "@ + c2) + r2 =~= "\n    repeats: "@ + (c2 + r2));
    lemma_label_peel("\n    repeats: "@, c1 + r1, c2 + r2);
    assert((bool_text(t1.repeats) + d1) + r1 =~= bool_text(t1.repeats) + (d1 + r1));
    assert((bool_text(t2.repeats) + d2) + r2 =~= bool_text(t2.repeats) + (d2 + r2));
    lemma_bool_tail(t1.repeats, t2.repeats, d1 + r1, d2 + r2);
    assert(("\n    repeats_every: "@ + e1) + r1 =~= "\n    repeats_every: "@ + (e1 + r1));
    assert(("\n    repeats_every: "@ + e2) + r2 =~= "\n    repeats_every: "@ + (e2 + r2));
    lemma_label_peel("\n    repeats_every: "@, e1 + r1, e2 + r2);
    assert((quoted(t1.repeats_every) + f1) + r1 =~= quoted(t1.repeats_every) + (f1 + r1));
    assert((quoted(t2.repeats_every) + f2) + r2 =~= quoted(t2.repeats_every) + (f2 + r2));
    lemma_quoted_tail(t1.repeats_every, t2.repeats_every, f1 + r1, f2 + r2);
    assert(("\n    id: "@ + g1) + r1 =~= "\n    id: "@ + (g1 + r1));
    assert(("\n    id: "@ + g2) + r2 =~= "\n    id: "@ + (g2 + r2));
    lemma_label_peel("\n    id: "@, g1 + r1, g2 + r2);
    assert((dec(t1.id as nat) + "\n"@) + r1 =~= dec(t1.id as nat) + ("\n"@ + r1));
    assert((dec(t2.id as nat) + "\n"@) + r2 =~= dec(t2.id as nat) + ("\n"@ + r2));
    reveal_strlit("\n");
    assert("\n"@.len() == 1 && "\n"@[0] == '\n');
    assert(("\n"@ + r1)[0] == '\n' && ("\n"@ + r2)[0] == '\n');
    assert(!is_digit('\n'));
    lemma_dec_tail(t1.id as nat, t2.id as nat, "\n"@ + r1, "\n"@ + r2);
    lemma_label_peel("\n"@, r1, r2);
    assert(t1 =~= t2);
}

/// A written record is never empty.
pub proof fn lemma_ser_task_nonempty(t: TaskView)
    ensures
        ser_task(t).len() > 0,
{
    assert(quoted(t.name).len() >= 2);
}

/// The written record sequence determines the records.
pub proof fn lemma_ser_tasks_injective(a: Seq<TaskView>, b: Seq<TaskView>)
    requires
        ser_tasks(a) == ser_tasks(b),
    ensures
        a == b,
    decreases a.len(),
{
    if a.len() == 0 {
        if b.len() > 0 {
            lemma_ser_task_nonempty(b[0]);
            assert(ser_tasks(b).len() >= ser_task(b[0]).len());
            assert(false);
        }
        assert(a =~= b);
    } else {
        if b.len() == 0 {
            lemma_ser_task_nonempty(a[0]);
            assert(ser_tasks(a).len() >= ser_task(a[0]).len());
            assert(false);
        }
        lemma_ser_task_tail(a[0], b[0], ser_tasks(a.drop_first()), ser_tasks(b.drop_first()));
        lemma_ser_tasks_injective(a.drop_first(), b.drop_first());
        assert(a =~= seq![a[0]] + a.drop_first());
        assert(b =~= seq![b[0]] + b.drop_first());
        assert(a == b);
    }
}

/// The written text determines the whole collection: serialization is
/// injective.
pub proof fn lemma_serialize_injective(a: Seq<TaskView>, b: Seq<TaskView>)
    requires
        spec_serialize(a) == spec_serialize(b),
    ensures
        a == b,
{
    reveal_strlit("---\ntasks: []\n");
    reveal_strlit("---\ntasks:\n");
    if a.len() == 0 && b.len() == 0 {
        assert(a =~= b);
    } else if a.len() == 0 && b.len() > 0 {
        assert(spec_serialize(a)[10] == ' ');
        assert(spec_serialize(b)[10] == '\n');
        assert(false);
    } else if a.len() > 0 && b.len() == 0 {
        assert(spec_serialize(b)[10] == ' ');
        assert(spec_serialize(a)[10] == '\n');
        assert(false);
    } else {
        assert(ser_tasks(a) =~= spec_serialize(a).skip(11));
        assert(ser_tasks(b) =~= spec_serialize(b).skip(11));
        lemma_ser_tasks_injective(a, b);
    }
}

/// What a partially scanned quoted field permits: when a whole quoted field
/// sits at `pos` and the scan has consumed an escape up to `j`, the scan
/// cannot have run past the closing quote, and what stands at `j` is
/// constrained to the shapes the scanner accepts.
pub proof fn lemma_quoted_abort(s: Seq<char>, pos: int, j: int, acc: Seq<char>, t: Seq<char>, j2: int)
    requires
        0 <= pos,
        pos + 1 <= j <= s.len(),
        pos <= j2 <= s.len(),
        s.subrange(pos + 1, j) == esc(acc),
        s.subrange(pos, j2) == quoted(t),
    ensures
        pos + 2 <= j2,
        j <= j2 - 1,
        j == j2 - 1 ==> s[j] == '"',
        j < j2 - 1 ==> s[j] != '\n' && s[j] != '"',
        j < j2 - 1 && s[j] == '\\' ==> j + 1 <= j2 - 2 && (s[j + 1] == '"' || s[j + 1] == '\\'
            || s[j + 1] == 'n'),
{
    assert(j2 - pos == quoted(t).len());
    assert(quoted(t).len() == esc(t).len() + 2);
    assert(forall|i: int| pos <= i < j2 ==> s[i] == quoted(t)[i - pos]);
    assert(forall|i: int| 0 <= i < esc(t).len() ==> quoted(t)[i + 1] == esc(t)[i]);
    assert(s[pos] == quoted(t)[0] && quoted(t)[0] == '"');
    assert(s[j2 - 1] == quoted(t)[j2 - pos - 1] && quoted(t)[j2 - pos - 1] == '"');
    assert(esc(t) =~= s.subrange(pos + 1, j2 - 1));
    if j > j2 - 1 {
        assert(esc(t).len() < esc(acc).len());
        assert(esc(t) =~= esc(acc).take(esc(t).len() as int));
        lemma_esc_prefix(t, acc);
        if t.len() == acc.len() {
            assert(acc.take(acc.len() as int) =~= acc);
            assert(esc(acc) == esc(t) + esc(acc.skip(acc.len() as int)));
            assert(acc.skip(acc.len() as int) =~= Seq::<char>::empty());
            assert(esc(Seq::<char>::empty()) == Seq::<char>::empty());
            assert(esc(acc) =~= esc(t));
            assert(false);
        }
        let rest = acc.skip(t.len() as int);
        assert(rest.len() > 0);
        assert(esc(rest) == esc_char(rest[0]) + esc(rest.drop_first()));
        lemma_esc_char_first(rest[0]);
        assert(esc(acc)[esc(t).len() as int] == esc(rest)[0]);
        assert(esc(rest)[0] == esc_char(rest[0])[0]);
        assert(s[j2 - 1] == esc(acc)[j2 - 1 - (pos + 1)]);
        assert(j2 - 1 - (pos + 1) == esc(t).len());
        assert(false);
    }
    if j < j2 - 1 {
        assert(esc(acc).len() < esc(t).len());
        assert(esc(acc) =~= esc(t).take(esc(acc).len() as int));
        lemma_esc_prefix(acc, t);
        if acc.len() == t.len() {
            assert(t.take(t.len() as int) =~= t);
            assert(esc(t) == esc(acc) + esc(t.skip(t.len() as int)));
            assert(t.skip(t.len() as int) =~= Seq::<char>::empty());
            assert(esc(Seq::<char>::empty()) == Seq::<char>::empty());
            assert(false);
        }
        let rest = t.skip(acc.len() as int);
        assert(rest.len() > 0);
        assert(esc(rest) == esc_char(rest[0]) + esc(rest.drop_first()));
        lemma_esc_char_first(rest[0]);
        assert(s[j] == esc(t)[j - (pos + 1)]);
        assert(j - (pos + 1) == esc(acc).len());
        assert(esc(t)[esc(acc).len() as int] == esc(rest)[0]);
        assert(esc(rest)[0] == esc_char(rest[0])[0]);
        if s[j] == '\\' {
            assert(esc_char(rest[0])[0] == '\\');
            if esc_char(rest[0]).len() == 1 {
                assert(esc_char(rest[0])[0] == rest[0] && rest[0] != '\\');
                assert(false);
            }
            assert(esc_char(rest[0]).len() == 2);
            assert(esc(rest).len() >= 2);
            assert(esc(rest)[1] == esc_char(rest[0])[1]);
            assert(esc(acc).len() + 1 < esc(t).len());
            assert(esc(t)[esc(acc).len() as int + 1] == esc(rest)[1]);
            assert(s[j + 1] == esc(t)[j + 1 - (pos + 1)]);
        }
    }
}

/// Two written statuses read from the same position of the same text are
/// the same status, ending at the same place.
pub proof fn lemma_status_at(s: Seq<char>, pos: int, st1: Status, st2: Status, j1: int, j2: int)
    requires
        0 <= pos <= j1 <= s.len(),
        pos <= j2 <= s.len(),
        s.subrange(pos, j1) == status_text(st1),
        s.subrange(pos, j2) == status_text(st2),
    ensures
        st1 == st2,
        j1 == j2,
{
    reveal_strlit("Done");
    reveal_strlit("Todo");
    assert(j1 - pos == status_text(st1).len());
    assert(j2 - pos == status_text(st2).len());
    if st1 != st2 {
        assert(s[pos] == status_text(st1)[0]);
        assert(s[pos] == status_text(st2)[0]);
        assert(false);
    }
}

/// Two written booleans read from the same position of the same text are
/// the same boolean, ending at the same place.
pub proof fn lemma_bool_at(s: Seq<char>, pos: int, b1: bool, b2: bool, j1: int, j2: int)
    requires
        0 <= pos <= j1 <= s.len(),
        pos <= j2 <= s.len(),
        s.subrange(pos, j1) == bool_text(b1),
        s.subrange(pos, j2) == bool_text(b2),
    ensures
        b1 == b2,
        j1 == j2,
{
    reveal_strlit("true");
    reveal_strlit("false");
    assert(j1 - pos == bool_text(b1).len());
    assert(j2 - pos == bool_text(b2).len());
    if b1 != b2 {
        assert(s[pos] == bool_text(b1)[0]);
        assert(s[pos] == bool_text(b2)[0]);
        assert(false);
    }
}

/// Two decimal renderings read from the same position of the same text,
/// each ending at a non-digit or at the end, denote the same value and end
/// at the same place.
pub proof fn lemma_dec_at(s: Seq<char>, pos: int, m: nat, n: nat, j1: int, j2: int)
    requires
        0 <= pos <= j1 <= s.len(),
        pos <= j2 <= s.len(),
        s.subrange(pos, j1) == dec(m),
        s.subrange(pos, j2) == dec(n),
        j1 == s.len() || !is_digit(s[j1]),
        j2 == s.len() || !is_digit(s[j2]),
    ensures
        m == n,
        j1 == j2,
{
    lemma_dec_props(m);
    lemma_dec_props(n);
    if j1 < j2 {
        assert(s[j1] == dec(n)[j1 - pos]);
        assert(is_digit(dec(n)[j1 - pos]));
        assert(j1 < s.len());
        assert(false);
    }
    if j2 < j1 {
        assert(s[j2] == dec(m)[j2 - pos]);
        assert(is_digit(dec(m)[j2 - pos]));
        assert(j2 < s.len());
        assert(false);
    }
    assert(dec(m) =~= dec(n));
    assert(dec_val(dec(m)) == dec_val(dec(n)));
}

/// Where each piece of a task record stands when the record is written at
/// `pos`: every label and every field, at its computed offset.
pub open spec fn task_pieces_at(s: Seq<char>, pos: int, t: TaskView) -> bool {
    let o1 = pos + "  - name: "@.len();
    let o2 = o1 + quoted(t.name).len();
    let o3 = o2 + "\n    description: "@.len();
    let o4 = o3 + quoted(t.description).len();
    let o5 = o4 + "\n    date_created: "@.len();
    let o6 = o5 + quoted(t.date_created).len();
    let o7 = o6 + "\n    date_due: "@.len();
    let o8 = o7 + quoted(t.date_due).len();
    let o9 = o8 + "\n    status: "@.len();
    let o10 = o9 + status_text(t.status).len();
    let o11 = o10 + "\n    repeats: "@.len();
    let o12 = o11 + bool_text(t.repeats).len();
    let o13 = o12 + "\n    repeats_every: "@.len();
    let o14 = o13 + quoted(t.repeats_every).len();
    let o15 = o14 + "\n    id: "@.len();
    let o16 = o15 + dec(t.id as nat).len();
    let o17 = o16 + "\n"@.len();
    &&& o17 <= s.len()
    &&& s.subrange(pos, o1) == "  - name: "@
    &&& s.subrange(o1, o2) == quoted(t.name)
    &&& s.subrange(o2, o3) == "\n    description: "@
    &&& s.subrange(o3, o4) == quoted(t.description)
    &&& s.subrange(o4, o5) == "\n    date_created: "@
    &&& s.subrange(o5, o6) == quoted(t.date_created)
    &&& s.subrange(o6, o7) == "\n    date_due: "@
    &&& s.subrange(o7, o8) == quoted(t.date_due)
    &&& s.subrange(o8, o9) == "\n    status: "@
    &&& s.subrange(o9, o10) == status_text(t.status)
    &&& s.subrange(o10, o11) == "\n    repeats: "@
    &&& s.subrange(o11, o12) == bool_text(t.repeats)
    &&& s.subrange(o12, o13) == "\n    repeats_every: "@
    &&& s.subrange(o13, o14) == quoted(t.repeats_every)
    &&& s.subrange(o14, o15) == "\n    id: "@
    &&& s.subrange(o15, o16) == dec(t.id as nat)
    &&& s.subrange(o16, o17) == "\n"@
}

/// One peeling step: when the text from `c` to `j2` is a piece followed by a
/// rest, the piece and the rest each stand at their own subrange.
pub proof fn lemma_peel_step(s: Seq<char>, c: int, j2: int, piece: Seq<char>, rest: Seq<char>)
    requires
        0 <= c,
        c + piece.len() + rest.len() == j2,
        j2 <= s.len(),
        forall|i: int| 0 <= i < j2 - c ==> s[c + i] == (piece + rest)[i],
    ensures
        s.subrange(c, c + piece.len() as int) == piece,
        s.subrange(c + piece.len() as int, j2) == rest,
        forall|i: int| 0 <= i < j2 - (c + piece.len()) ==> s[c + piece.len() + i] == rest[i],
{
    assert forall|i: int| 0 <= i < piece.len() implies s.subrange(c, c + piece.len() as int)[i]
        == piece[i] by {
        assert((piece + rest)[i] == piece[i]);
        assert(s[c + i] == (piece + rest)[i]);
    }
    assert(s.subrange(c, c + piece.len() as int) =~= piece);
    assert forall|i: int| 0 <= i < rest.len() implies s.subrange(c + piece.len() as int, j2)[i]
        == rest[i] by {
        assert((piece + rest)[piece.len() + i] == rest[i]);
        assert(s[c + (piece.len() + i)] == (piece + rest)[piece.len() + i]);
    }
    assert(s.subrange(c + piece.len() as int, j2) =~= rest);
    assert forall|i: int| 0 <= i < j2 - (c + piece.len()) implies s[c + piece.len() + i]
        == rest[i] by {
        assert((piece + rest)[piece.len() + i] == rest[i]);
        assert(s[c + (piece.len() + i)] == (piece + rest)[piece.len() + i]);
    }
}

/// A task record written at `pos` splits into its pieces at their offsets,
/// and ends exactly at `pos` plus its length.
#[verifier::rlimit(100)]
pub proof fn lemma_task_pieces(s: Seq<char>, pos: int, j2: int, t: TaskView)
    requires
        0 <= pos <= j2 <= s.len(),
        s.subrange(pos, j2) == ser_task(t),
    ensures
        task_pieces_at(s, pos, t),
        j2 == pos + ser_task(t).len(),
{
    lemma_ser_task_nested(t);
    let o1 = pos + "  - name: "@.len();
    let o2 = o1 + quoted(t.name).len();
    let o3 = o2 + "\n    description: "@.len();
    let o4 = o3 + quoted(t.description).len();
    let o5 = o4 + "\n    date_created: "@.len();
    let o6 = o5 + quoted(t.date_created).len();
    let o7 = o6 + "\n    date_due: "@.len();
    let o8 = o7 + quoted(t.date_due).len();
    let o9 = o8 + "\n    status: "@.len();
    let o10 = o9 + status_text(t.status).len();
    let o11 = o10 + "\n    repeats: "@.len();
    let o12 = o11 + bool_text(t.repeats).len();
    let o13 = o12 + "\n    repeats_every: "@.len();
    let o14 = o13 + quoted(t.repeats_every).len();
    let o15 = o14 + "\n    id: "@.len();
    let o16 = o15 + dec(t.id as nat).len();
    let g = dec(t.id as nat) + "\n"@;
    let f = "\n    id: "@ + g;
    let e = quoted(t.repeats_every) + f;
    let d = "\n    repeats_every: "@ + e;
    let c = bool_text(t.repeats) + d;
    let b = "\n    repeats: "@ + c;
    let a = status_text(t.status) + b;
    let z = "\n    status: "@ + a;
    let y = quoted(t.date_due) + z;
    let x = "\n    date_due: "@ + y;
    let w = quoted(t.date_created) + x;
    let v = "\n    date_created: "@ + w;
    let u = quoted(t.description) + v;
    let sd = "\n    description: "@ + u;
    let p = quoted(t.name) + sd;
    assert(ser_task(t) == "  - name: "@ + p);
    assert forall|i: int| 0 <= i < j2 - pos implies s[pos + i] == ("  - name: "@ + p)[i] by {
        assert(s.subrange(pos, j2)[i] == s[pos + i]);
    }
    lemma_peel_step(s, pos, j2, "  - name: "@, p);
    lemma_peel_step(s, o1, j2, quoted(t.name), sd);
    lemma_peel_step(s, o2, j2, "\n    description: "@, u);
    lemma_peel_step(s, o3, j2, quoted(t.description), v);
    lemma_peel_step(s, o4, j2, "\n    date_created: "@, w);
    lemma_peel_step(s, o5, j2, quoted(t.date_created), x);
    lemma_peel_step(s, o6, j2, "\n    date_due: "@, y);
    lemma_peel_step(s, o7, j2, quoted(t.date_due), z);
    lemma_peel_step(s, o8, j2, "\n    status: "@, a);
    lemma_peel_step(s, o9, j2, status_text(t.status), b);
    lemma_peel_step(s, o10, j2, "\n    repeats: "@, c);
    lemma_peel_step(s, o11, j2, bool_text(t.repeats), d);
    lemma_peel_step(s, o12, j2, "\n    repeats_every: "@, e);
    lemma_peel_step(s, o13, j2, quoted(t.repeats_every), f);
    lemma_peel_step(s, o14, j2, "\n    id: "@, g);
    lemma_peel_step(s, o15, j2, dec(t.id as nat), "\n"@);
    assert(s.subrange(o16, j2) == "\n"@);
}

/// A parsed prefix of a written record sequence is a prefix of the records,
/// and the remainder of the text holds the remaining records.
#[verifier::rlimit(100)]
pub proof fn lemma_ser_tasks_align(
    all: Seq<TaskView>,
    cur: Seq<TaskView>,
    s: Seq<char>,
    start: int,
    p: int,
    end: int,
)
    requires
        0 <= start <= p <= end <= s.len(),
        s.subrange(start, end) == ser_tasks(all),
        s.subrange(start, p) == ser_tasks(cur),
    ensures
        cur.len() <= all.len(),
        cur == all.take(cur.len() as int),
        s.subrange(p, end) == ser_tasks(all.skip(cur.len() as int)),
    decreases cur.len(),
{
    if cur.len() == 0 {
        assert(ser_tasks(cur) == Seq::<char>::empty());
        assert(p == start);
        assert(cur =~= all.take(0));
        assert(all.skip(0) =~= all);
        assert(s.subrange(p, end) == ser_tasks(all));
    } else {
        if all.len() == 0 {
            assert(ser_tasks(all) == Seq::<char>::empty());
            assert(end == start);
            lemma_ser_task_nonempty(cur[0]);
            assert(ser_tasks(cur).len() >= ser_task(cur[0]).len());
            assert(false);
        }
        let whole = s.subrange(start, end);
        assert(ser_task(all[0]) + ser_tasks(all.drop_first()) == whole);
        let mid = s.subrange(p, end);
        assert(forall|i: int| start <= i < end ==> s[i] == whole[i - start]);
        assert(forall|i: int| start <= i < p ==> s[i] == ser_tasks(cur)[i - start]);
        assert(forall|i: int| p <= i < end ==> s[i] == mid[i - p]);
        assert(ser_tasks(cur) + mid =~= whole);
        assert((ser_task(cur[0]) + ser_tasks(cur.drop_first())) + mid =~= ser_task(cur[0]) + (
        ser_tasks(cur.drop_first()) + mid));
        lemma_ser_task_tail(
            cur[0],
            all[0],
            ser_tasks(cur.drop_first()) + mid,
            ser_tasks(all.drop_first()),
        );
        let start2 = start + ser_task(cur[0]).len() as int;
        assert(start2 <= p) by {
            assert(ser_tasks(cur).len() >= ser_task(cur[0]).len());
        }
        assert(s.subrange(start2, end) =~= ser_tasks(all.drop_first()));
        assert(s.subrange(start2, p) =~= ser_tasks(cur.drop_first()));
        lemma_ser_tasks_align(all.drop_first(), cur.drop_first(), s, start2, p, end);
        assert(cur[0] == all[0]);
        assert forall|i: int| 0 <= i < cur.len() implies cur[i] == all.take(cur.len() as int)[i] by {
            if i > 0 {
                assert(cur.drop_first()[i - 1] == all.drop_first().take(
                    cur.drop_first().len() as int,
                )[i - 1]);
                assert(cur.drop_first()[i - 1] == cur[i]);
                assert(all.drop_first()[i - 1] == all[i]);
            }
        }
        assert(cur =~= all.take(cur.len() as int));
        assert(all.skip(cur.len() as int) =~= all.drop_first().skip(cur.len() - 1));
    }
}

/// Law: parsing inverts serialization — for every collection, the serialized
/// text parses back to exactly that collection.
pub proof fn lemma_round_trip(ts: Seq<TaskView>)
    ensures
        spec_parse(spec_serialize(ts)) == Some(ts),
{
    assert(spec_serialize(ts) == spec_serialize(ts));
    assert(exists|x: Seq<TaskView>| spec_serialize(x) == spec_serialize(ts));
    let x = choose|x: Seq<TaskView>| spec_serialize(x) == spec_serialize(ts);
    lemma_serialize_injective(x, ts);
}

/// The characters of a text, one by one.
fn str_to_chars(text: &str) -> (r: Vec<char>)
    ensures
        r@ == text@,
{
    let n: usize = text.unicode_len();
    let mut v: Vec<char> = Vec::new();
    let mut i: usize = 0;
    while i < n
        invariant
            i <= n,
            n == text@.len(),
            v@ == text@.take(i as int),
        decreases n - i,
    {
        let c: char = text.get_char(i);
        v.push(c);
        proof {
            assert(v@ =~= text@.take(i as int + 1));
        }
        i = i + 1;
    }
    proof {
        assert(text@.take(n as int) =~= text@);
    }
    v
}

/// Reads one expected literal at `pos`: its end when the text carries it
/// there, nothing when it does not.
fn expect_lit(v: &Vec<char>, pos: usize, lit: &str) -> (r: Option<usize>)
    requires
        pos <= v@.len(),
    ensures
        match r {
            Some(j) => j == pos + lit@.len() && j <= v@.len() && v@.subrange(pos as int, j as int)
                == lit@,
            None => !(pos + lit@.len() <= v@.len() && v@.subrange(
                pos as int,
                pos as int + lit@.len(),
            ) == lit@),
        },
{
    let n: usize = lit.unicode_len();
    if n > v.len() - pos {
        return None;
    }
    let mut k: usize = 0;
    while k < n
        invariant
            0 <= k <= n,
            n == lit@.len(),
            pos + n <= v@.len(),
            v@.len() <= usize::MAX,
            forall|i: int| 0 <= i < k ==> v@[pos + i] == lit@[i],
        decreases n - k,
    {
        if v[pos + k] != lit.get_char(k) {
            proof {
                if v@.subrange(pos as int, pos as int + lit@.len()) == lit@ {
                    assert(v@.subrange(pos as int, pos as int + lit@.len())[k as int] == v@[pos
                        + k]);
                }
            }
            return None;
        }
        k = k + 1;
    }
    proof {
        assert(v@.subrange(pos as int, pos as int + n as int) =~= lit@);
    }
    Some(pos + n)
}

/// Reads one quoted text field at `pos`: the field and its end, or nothing
/// when no quoted field stands there.
fn parse_quoted(v: &Vec<char>, pos: usize) -> (r: Option<(String, usize)>)
    requires
        pos <= v@.len(),
    ensures
        match r {
            Some((t, j)) => pos < j <= v@.len() && v@.subrange(pos as int, j as int) == quoted(t@),
            None => forall|t: Seq<char>, j2: int|
                pos <= j2 <= v@.len() ==> v@.subrange(pos as int, j2) != quoted(t),
        },
{
    if pos == v.len() || v[pos] != '"' {
        proof {
            assert forall|t: Seq<char>, j2: int|
                pos <= j2 <= v@.len() implies v@.subrange(pos as int, j2) != quoted(t) by {
                if v@.subrange(pos as int, j2) == quoted(t) {
                    assert(j2 - pos == quoted(t).len());
                    assert(quoted(t).len() >= 2);
                    assert(v@.subrange(pos as int, j2)[0] == v@[pos as int]);
                    assert(quoted(t)[0] == '"');
                }
            }
        }
        return None;
    }
    let mut acc: String = String::new();
    let mut j: usize = pos + 1;
    loop
        invariant
            pos + 1 <= j <= v@.len(),
            pos < v@.len(),
            v@[pos as int] == '"',
            v@.subrange(pos as int + 1, j as int) == esc(acc@),
        decreases v@.len() - j,
    {
        if j == v.len() {
            proof {
                assert forall|t: Seq<char>, j2: int|
                    pos <= j2 <= v@.len() implies v@.subrange(pos as int, j2) != quoted(t) by {
                    if v@.subrange(pos as int, j2) == quoted(t) {
                        lemma_quoted_abort(v@, pos as int, j as int, acc@, t, j2);
                    }
                }
            }
            return None;
        }
        let c: char = v[j];
        if c == '"' {
            proof {
                assert(v@.subrange(pos as int, j as int + 1) =~= quoted(acc@));
            }
            return Some((acc, j + 1));
        } else if c == '\\' {
            if j + 1 == v.len() {
                proof {
                    assert forall|t: Seq<char>, j2: int|
                        pos <= j2 <= v@.len() implies v@.subrange(pos as int, j2) != quoted(t) by {
                        if v@.subrange(pos as int, j2) == quoted(t) {
                            lemma_quoted_abort(v@, pos as int, j as int, acc@, t, j2);
                        }
                    }
                }
                return None;
            }
            let d: char = v[j + 1];
            if d == '"' || d == '\\' || d == 'n' {
                let e: char = if d == '"' {
                    '"'
                } else if d == '\\' {
                    '\\'
                } else {
                    '\n'
                };
                let ghost prev = acc@;
                crate::codec::push_char(&mut acc, e);
                proof {
                    lemma_esc_app(prev, seq![e]);
                    lemma_esc_one(e);
                    assert(acc@ =~= prev + seq![e]);
                    assert(esc_char(e) =~= seq!['\\', d]);
                    assert(v@.subrange(pos as int + 1, j as int + 2) =~= esc(acc@));
                }
                j = j + 2;
            } else {
                proof {
                    assert forall|t: Seq<char>, j2: int|
                        pos <= j2 <= v@.len() implies v@.subrange(pos as int, j2) != quoted(t) by {
                        if v@.subrange(pos as int, j2) == quoted(t) {
                            lemma_quoted_abort(v@, pos as int, j as int, acc@, t, j2);
                        }
                    }
                }
                return None;
            }
        } else if c == '\n' {
            proof {
                assert forall|t: Seq<char>, j2: int|
                    pos <= j2 <= v@.len() implies v@.subrange(pos as int, j2) != quoted(t) by {
                    if v@.subrange(pos as int, j2) == quoted(t) {
                        lemma_quoted_abort(v@, pos as int, j as int, acc@, t, j2);
                    }
                }
            }
            return None;
        } else {
            let ghost prev = acc@;
            crate::codec::push_char(&mut acc, c);
            proof {
                lemma_esc_app(prev, seq![c]);
                lemma_esc_one(c);
                assert(acc@ =~= prev + seq![c]);
                assert(esc_char(c) =~= seq![c]);
                assert(v@.subrange(pos as int + 1, j as int + 1) =~= esc(acc@));
            }
            j = j + 1;
        }
    }
}

/// The value a digit character carries, or nothing for any other character.
fn digit_of(c: char) -> (r: Option<u64>)
    ensures
        match r {
            Some(d) => is_digit(c) && d <= 9 && d as int == digit_val(c),
            None => !is_digit(c),
        },
{
    if c == '0' {
        Some(0)
    } else if c == '1' {
        Some(1)
    } else if c == '2' {
        Some(2)
    } else if c == '3' {
        Some(3)
    } else if c == '4' {
        Some(4)
    } else if c == '5' {
        Some(5)
    } else if c == '6' {
        Some(6)
    } else if c == '7' {
        Some(7)
    } else if c == '8' {
        Some(8)
    } else if c == '9' {
        Some(9)
    } else {
        None
    }
}

/// Reads one written identifier at `pos`: its value and its end, or nothing
/// when no canonically written value, ending at a non-digit or at the end,
/// stands there.
fn parse_dec(v: &Vec<char>, pos: usize) -> (r: Option<(u64, usize)>)
    requires
        pos <= v@.len(),
    ensures
        match r {
            Some((n, j)) => pos < j <= v@.len() && v@.subrange(pos as int, j as int) == dec(
                n as nat,
            ) && (j == v@.len() || !is_digit(v@[j as int])),
            None => forall|n: u64, j2: int|
                pos <= j2 <= v@.len() && (j2 == v@.len() || !is_digit(v@[j2]))
                    ==> v@.subrange(pos as int, j2) != dec(n as nat),
        },
{
    if pos == v.len() {
        proof {
            assert forall|n: u64, j2: int|
                pos <= j2 <= v@.len() && (j2 == v@.len() || !is_digit(v@[j2])) implies v@.subrange(
                pos as int,
                j2,
            ) != dec(n as nat) by {
                lemma_dec_props(n as nat);
            }
        }
        return None;
    }
    let d0: u64 = match digit_of(v[pos]) {
        Some(d) => d,
        None => {
            proof {
                assert forall|n: u64, j2: int|
                    pos <= j2 <= v@.len() && (j2 == v@.len() || !is_digit(v@[j2]))
                        implies v@.subrange(pos as int, j2) != dec(n as nat) by {
                    if v@.subrange(pos as int, j2) == dec(n as nat) {
                        lemma_dec_props(n as nat);
                        assert(v@.subrange(pos as int, j2)[0] == v@[pos as int]);
                        assert(is_digit(dec(n as nat)[0]));
                    }
                }
            }
            return None;
        },
    };
    if v[pos] == '0' {
        if pos + 1 == v.len() || digit_of(v[pos + 1]).is_none() {
            proof {
                reveal(dec_digit);
                assert(dec(0nat) =~= seq!['0']);
                assert(v@.subrange(pos as int, pos as int + 1) =~= dec(0nat));
            }
            return Some((0, pos + 1));
        } else {
            proof {
                assert forall|n: u64, j2: int|
                    pos <= j2 <= v@.len() && (j2 == v@.len() || !is_digit(v@[j2]))
                        implies v@.subrange(pos as int, j2) != dec(n as nat) by {
                    if v@.subrange(pos as int, j2) == dec(n as nat) {
                        lemma_dec_props(n as nat);
                        assert(v@.subrange(pos as int, j2)[0] == v@[pos as int]);
                        assert(dec(n as nat)[0] == '0');
                        assert(n == 0);
                        reveal(dec_digit);
                        assert(dec(0nat) =~= seq!['0']);
                        assert(j2 == pos + 1);
                        assert(is_digit(v@[pos as int + 1]));
                    }
                }
            }
            return None;
        }
    }
    let mut j: usize = pos + 1;
    let mut val: u64 = d0;
    proof {
        assert(v@.subrange(pos as int, pos as int + 1) =~= seq![v@[pos as int]]);
        assert(seq![v@[pos as int]].drop_last() =~= Seq::<char>::empty());
        assert(dec_val(Seq::<char>::empty()) == 0);
        assert(seq![v@[pos as int]].last() == v@[pos as int]);
        assert(dec_val(seq![v@[pos as int]]) == digit_val(v@[pos as int]));
        assert(dec_val(v@.subrange(pos as int, j as int)) == digit_val(v@[pos as int]));
    }
    loop
        invariant
            pos < j <= v@.len(),
            pos < v@.len(),
            v@[pos as int] != '0',
            is_digit(v@[pos as int]),
            forall|i: int| pos <= i < j ==> is_digit(#[trigger] v@[i]),
            val as int == dec_val(v@.subrange(pos as int, j as int)),
        decreases v@.len() - j,
    {
        let ghost run = v@.subrange(pos as int, j as int);
        if j == v.len() {
            proof {
                assert(forall|i: int| 0 <= i < run.len() ==> is_digit(#[trigger] run[i]));
                lemma_dec_canonical(run);
            }
            return Some((val, j));
        }
        match digit_of(v[j]) {
            Some(d) => {
                if val > (u64::MAX - d) / 10 {
                    proof {
                        assert(val as int * 10 + d > u64::MAX) by {
                            let q = (u64::MAX - d) as int / 10;
                            vstd::arithmetic::div_mod::lemma_fundamental_div_mod(
                                (u64::MAX - d) as int,
                                10,
                            );
                            assert(val as int >= q + 1);
                        }
                        let ext = v@.subrange(pos as int, j as int + 1);
                        assert(ext.drop_last() =~= run);
                        assert(ext.last() == v@[j as int]);
                        assert(dec_val(ext) == val as int * 10 + d);
                        assert forall|n: u64, j2: int|
                            pos <= j2 <= v@.len() && (j2 == v@.len() || !is_digit(v@[j2]))
                                implies v@.subrange(pos as int, j2) != dec(n as nat) by {
                            if v@.subrange(pos as int, j2) == dec(n as nat) {
                                lemma_dec_props(n as nat);
                                if j2 <= j {
                                    assert(is_digit(v@[j2]));
                                    assert(j2 < v@.len());
                                } else {
                                    assert(j2 >= j + 1);
                                    assert forall|i: int| 0 <= i < ext.len() implies ext[i]
                                        == dec(n as nat)[i] by {
                                        assert(v@.subrange(pos as int, j2)[i] == v@[pos + i]);
                                        assert(ext[i] == v@[pos + i]);
                                    }
                                    assert(ext =~= dec(n as nat).take(ext.len() as int));
                                    lemma_dec_val_prefix(dec(n as nat), ext.len() as int);
                                    assert(dec_val(dec(n as nat)) >= dec_val(ext));
                                }
                            }
                        }
                    }
                    return None;
                }
                proof {
                    assert(val as int * 10 + d <= u64::MAX) by {
                        let q = (u64::MAX - d) as int / 10;
                        vstd::arithmetic::div_mod::lemma_fundamental_div_mod(
                            (u64::MAX - d) as int,
                            10,
                        );
                        assert(val as int <= q);
                    }
                    let ext = v@.subrange(pos as int, j as int + 1);
                    assert(ext.drop_last() =~= run);
                    assert(ext.last() == v@[j as int]);
                    assert(dec_val(ext) == val as int * 10 + d);
                }
                val = val * 10 + d;
                j = j + 1;
            },
            None => {
                proof {
                    assert(forall|i: int| 0 <= i < run.len() ==> is_digit(#[trigger] run[i]));
                    lemma_dec_canonical(run);
                }
                return Some((val, j));
            },
        }
    }
}

/// One joining step: two adjacent subranges concatenate to the enclosing
/// subrange.
pub proof fn lemma_join_step(s: Seq<char>, pos: int, a: int, b: int, x: Seq<char>, y: Seq<char>)
    requires
        0 <= pos <= a <= b <= s.len(),
        s.subrange(pos, a) == x,
        s.subrange(a, b) == y,
    ensures
        s.subrange(pos, b) == x + y,
{
    assert forall|i: int| 0 <= i < b - pos implies s.subrange(pos, b)[i] == (x + y)[i] by {
        if i < a - pos {
            assert(s.subrange(pos, a)[i] == s[pos + i]);
        } else {
            assert(s.subrange(a, b)[i - (a - pos)] == s[a + (i - (a - pos))]);
        }
    }
    assert(s.subrange(pos, b) =~= x + y);
}

/// Reads one written status at `pos`: the status and its end, or nothing
/// when neither status stands there.
fn parse_status(v: &Vec<char>, pos: usize) -> (r: Option<(Status, usize)>)
    requires
        pos <= v@.len(),
    ensures
        match r {
            Some((st, j)) => pos <= j <= v@.len() && v@.subrange(pos as int, j as int)
                == status_text(st),
            None => forall|st: Status, j2: int|
                pos <= j2 <= v@.len() ==> v@.subrange(pos as int, j2) != status_text(st),
        },
{
    match expect_lit(v, pos, "Done") {
        Some(j) => {
            return Some((Status::Done, j));
        },
        None => {},
    }
    match expect_lit(v, pos, "Todo") {
        Some(j) => {
            return Some((Status::Todo, j));
        },
        None => {},
    }
    proof {
        reveal_strlit("Done");
        reveal_strlit("Todo");
        assert forall|st: Status, j2: int|
            pos <= j2 <= v@.len() implies v@.subrange(pos as int, j2) != status_text(st) by {
            if v@.subrange(pos as int, j2) == status_text(st) {
                assert(j2 == pos + status_text(st).len());
            }
        }
    }
    None
}

/// Reads one written boolean at `pos`: the boolean and its end, or nothing
/// when neither stands there.
fn parse_bool(v: &Vec<char>, pos: usize) -> (r: Option<(bool, usize)>)
    requires
        pos <= v@.len(),
    ensures
        match r {
            Some((b, j)) => pos <= j <= v@.len() && v@.subrange(pos as int, j as int) == bool_text(
                b,
            ),
            None => forall|b: bool, j2: int|
                pos <= j2 <= v@.len() ==> v@.subrange(pos as int, j2) != bool_text(b),
        },
{
    match expect_lit(v, pos, "true") {
        Some(j) => {
            return Some((true, j));
        },
        None => {},
    }
    match expect_lit(v, pos, "false") {
        Some(j) => {
            return Some((false, j));
        },
        None => {},
    }
    proof {
        reveal_strlit("true");
        reveal_strlit("false");
        assert forall|b: bool, j2: int|
            pos <= j2 <= v@.len() implies v@.subrange(pos as int, j2) != bool_text(b) by {
            if v@.subrange(pos as int, j2) == bool_text(b) {
                assert(j2 == pos + bool_text(b).len());
            }
        }
    }
    None
}

/// The head of a written record: the four text fields with their labels.
pub open spec fn ser_head(n: Seq<char>, d: Seq<char>, dc: Seq<char>, dd: Seq<char>) -> Seq<char> {
    "  - name: "@ + quoted(n) + "\n    description: "@ + quoted(d) + "\n    date_created: "@
        + quoted(dc) + "\n    date_due: "@ + quoted(dd)
}

/// A task record written at `pos` begins with its head: the four text fields
/// up to and including the due date.
pub proof fn lemma_task_head_piece(s: Seq<char>, pos: int, j2: int, t: TaskView)
    requires
        0 <= pos <= j2 <= s.len(),
        s.subrange(pos, j2) == ser_task(t),
    ensures
        task_pieces_at(s, pos, t),
        j2 == pos + ser_task(t).len(),
        ({
            let o8 = pos + "  - name: "@.len() + quoted(t.name).len() + "\n    description: "@.len()
                + quoted(t.description).len() + "\n    date_created: "@.len() + quoted(
                t.date_created,
            ).len() + "\n    date_due: "@.len() + quoted(t.date_due).len();
            s.subrange(pos, o8) == ser_head(t.name, t.description, t.date_created, t.date_due)
        }),
{
    lemma_task_pieces(s, pos, j2, t);
    let o1 = pos + "  - name: "@.len();
    let o2 = o1 + quoted(t.name).len();
    let o3 = o2 + "\n    description: "@.len();
    let o4 = o3 + quoted(t.description).len();
    let o5 = o4 + "\n    date_created: "@.len();
    let o6 = o5 + quoted(t.date_created).len();
    let o7 = o6 + "\n    date_due: "@.len();
    let o8 = o7 + quoted(t.date_due).len();
    lemma_join_step(s, pos, o1, o2, "  - name: "@, quoted(t.name));
    lemma_join_step(s, pos, o2, o3, "  - name: "@ + quoted(t.name), "\n    description: "@);
    lemma_join_step(
        s,
        pos,
        o3,
        o4,
        "  - name: "@ + quoted(t.name) + "\n    description: "@,
        quoted(t.description),
    );
    lemma_join_step(
        s,
        pos,
        o4,
        o5,
        "  - name: "@ + quoted(t.name) + "\n    description: "@ + quoted(t.description),
        "\n    date_created: "@,
    );
    lemma_join_step(
        s,
        pos,
        o5,
        o6,
        "  - name: "@ + quoted(t.name) + "\n    description: "@ + quoted(t.description)
            + "\n    date_created: "@,
        quoted(t.date_created),
    );
    lemma_join_step(
        s,
        pos,
        o6,
        o7,
        "  - name: "@ + quoted(t.name) + "\n    description: "@ + quoted(t.description)
            + "\n    date_created: "@ + quoted(t.date_created),
        "\n    date_due: "@,
    );
    lemma_join_step(
        s,
        pos,
        o7,
        o8,
        "  - name: "@ + quoted(t.name) + "\n    description: "@ + quoted(t.description)
            + "\n    date_created: "@ + quoted(t.date_created) + "\n    date_due: "@,
        quoted(t.date_due),
    );
}

/// A record head written at `pos` splits into its eight pieces.
pub proof fn lemma_head_pieces(
    s: Seq<char>,
    pos: int,
    j: int,
    n: Seq<char>,
    d: Seq<char>,
    c: Seq<char>,
    u: Seq<char>,
)
    requires
        0 <= pos <= j <= s.len(),
        s.subrange(pos, j) == ser_head(n, d, c, u),
    ensures
        ({
            let o1 = pos + "  - name: "@.len();
            let o2 = o1 + quoted(n).len();
            let o3 = o2 + "\n    description: "@.len();
            let o4 = o3 + quoted(d).len();
            let o5 = o4 + "\n    date_created: "@.len();
            let o6 = o5 + quoted(c).len();
            let o7 = o6 + "\n    date_due: "@.len();
            &&& j == o7 + quoted(u).len()
            &&& s.subrange(o1, o2) == quoted(n)
            &&& s.subrange(o3, o4) == quoted(d)
            &&& s.subrange(o5, o6) == quoted(c)
            &&& s.subrange(o7, j) == quoted(u)
        }),
{
    let x1 = "  - name: "@;
    let x2 = quoted(n);
    let x3 = "\n    description: "@;
    let x4 = quoted(d);
    let x5 = "\n    date_created: "@;
    let x6 = quoted(c);
    let x7 = "\n    date_due: "@;
    let x8 = quoted(u);
    crate::codec::lemma_assoc(x1 + x2 + x3 + x4 + x5 + x6, x7, x8);
    crate::codec::lemma_assoc(x1 + x2 + x3 + x4 + x5, x6, x7 + x8);
    crate::codec::lemma_assoc(x1 + x2 + x3 + x4, x5, x6 + (x7 + x8));
    crate::codec::lemma_assoc(x1 + x2 + x3, x4, x5 + (x6 + (x7 + x8)));
    crate::codec::lemma_assoc(x1 + x2, x3, x4 + (x5 + (x6 + (x7 + x8))));
    crate::codec::lemma_assoc(x1, x2, x3 + (x4 + (x5 + (x6 + (x7 + x8)))));
    assert(ser_head(n, d, c, u) == x1 + (x2 + (x3 + (x4 + (x5 + (x6 + (x7 + x8)))))));
    assert forall|i: int| 0 <= i < j - pos implies s[pos + i] == (x1 + (x2 + (x3 + (x4 + (x5 + (x6
        + (x7 + x8)))))))[i] by {
        assert(s.subrange(pos, j)[i] == s[pos + i]);
    }
    let o1 = pos + x1.len();
    let o2 = o1 + x2.len();
    let o3 = o2 + x3.len();
    let o4 = o3 + x4.len();
    let o5 = o4 + x5.len();
    let o6 = o5 + x6.len();
    let o7 = o6 + x7.len();
    lemma_peel_step(s, pos, j, x1, x2 + (x3 + (x4 + (x5 + (x6 + (x7 + x8))))));
    lemma_peel_step(s, o1, j, x2, x3 + (x4 + (x5 + (x6 + (x7 + x8)))));
    lemma_peel_step(s, o2, j, x3, x4 + (x5 + (x6 + (x7 + x8))));
    lemma_peel_step(s, o3, j, x4, x5 + (x6 + (x7 + x8)));
    lemma_peel_step(s, o4, j, x5, x6 + (x7 + x8));
    lemma_peel_step(s, o5, j, x6, x7 + x8);
    lemma_peel_step(s, o6, j, x7, x8);
}

/// Two record heads read from the same position of the same text carry the
/// same four fields and end at the same place.
#[verifier::rlimit(100)]
pub proof fn lemma_ser_head_align(
    s: Seq<char>,
    pos: int,
    n1: Seq<char>,
    d1: Seq<char>,
    c1: Seq<char>,
    u1: Seq<char>,
    n2: Seq<char>,
    d2: Seq<char>,
    c2: Seq<char>,
    u2: Seq<char>,
    j1: int,
    j2: int,
)
    requires
        0 <= pos <= j1 <= s.len(),
        pos <= j2 <= s.len(),
        s.subrange(pos, j1) == ser_head(n1, d1, c1, u1),
        s.subrange(pos, j2) == ser_head(n2, d2, c2, u2),
    ensures
        n1 == n2,
        d1 == d2,
        c1 == c2,
        u1 == u2,
        j1 == j2,
{
    lemma_head_pieces(s, pos, j1, n1, d1, c1, u1);
    lemma_head_pieces(s, pos, j2, n2, d2, c2, u2);
    let a1 = pos + "  - name: "@.len();
    let b1 = a1 + quoted(n1).len();
    let b2 = a1 + quoted(n2).len();
    lemma_quoted_prefix(n1, n2, s, a1, b1, b2);
    let e1 = b1 + "\n    description: "@.len();
    let f1 = e1 + quoted(d1).len();
    let f2 = e1 + quoted(d2).len();
    lemma_quoted_prefix(d1, d2, s, e1, f1, f2);
    let g1 = f1 + "\n    date_created: "@.len();
    let h1 = g1 + quoted(c1).len();
    let h2 = g1 + quoted(c2).len();
    lemma_quoted_prefix(c1, c2, s, g1, h1, h2);
    let i1 = h1 + "\n    date_due: "@.len();
    lemma_quoted_prefix(u1, u2, s, i1, j1, j2);
}

/// The four text fields of one record's head, as parsed.
struct HeadFields {
    name: String,
    description: String,
    date_created: String,
    date_due: String,
}

/// Reads a record head at `pos`: the four text fields and the end of the
/// head, or nothing when no whole written record stands at `pos`.
#[verifier::rlimit(100)]
fn parse_task_head(v: &Vec<char>, pos: usize) -> (r: Option<(HeadFields, usize)>)
    requires
        pos <= v@.len(),
    ensures
        match r {
            Some((h, j)) => pos < j <= v@.len() && v@.subrange(pos as int, j as int) == ser_head(
                h.name@,
                h.description@,
                h.date_created@,
                h.date_due@,
            ),
            None => forall|t: TaskView, j2: int|
                pos <= j2 <= v@.len() ==> v@.subrange(pos as int, j2) != ser_task(t),
        },
{
    let p1: usize = match expect_lit(v, pos, "  - name: ") {
        Some(p) => p,
        None => {
            proof {
                assert forall|t: TaskView, j2: int|
                    pos <= j2 <= v@.len() implies v@.subrange(pos as int, j2) != ser_task(t) by {
                    if v@.subrange(pos as int, j2) == ser_task(t) {
                        lemma_task_pieces(v@, pos as int, j2, t);
                    }
                }
            }
            return None;
        },
    };
    let (name, p2): (String, usize) = match parse_quoted(v, p1) {
        Some(pair) => pair,
        None => {
            proof {
                assert forall|t: TaskView, j2: int|
                    pos <= j2 <= v@.len() implies v@.subrange(pos as int, j2) != ser_task(t) by {
                    if v@.subrange(pos as int, j2) == ser_task(t) {
                        lemma_task_pieces(v@, pos as int, j2, t);
                        let o1 = pos as int + "  - name: "@.len();
                        let o2 = o1 + quoted(t.name).len();
                        assert(v@.subrange(p1 as int, o2) != quoted(t.name));
                    }
                }
            }
            return None;
        },
    };
    let p3: usize = match expect_lit(v, p2, "\n    description: ") {
        Some(p) => p,
        None => {
            proof {
                assert forall|t: TaskView, j2: int|
                    pos <= j2 <= v@.len() implies v@.subrange(pos as int, j2) != ser_task(t) by {
                    if v@.subrange(pos as int, j2) == ser_task(t) {
                        lemma_task_pieces(v@, pos as int, j2, t);
                        let o1 = pos as int + "  - name: "@.len();
                        let o2 = o1 + quoted(t.name).len();
                        lemma_quoted_prefix(name@, t.name, v@, p1 as int, p2 as int, o2);
                    }
                }
            }
            return None;
        },
    };
    let (description, p4): (String, usize) = match parse_quoted(v, p3) {
        Some(pair) => pair,
        None => {
            proof {
                assert forall|t: TaskView, j2: int|
                    pos <= j2 <= v@.len() implies v@.subrange(pos as int, j2) != ser_task(t) by {
                    if v@.subrange(pos as int, j2) == ser_task(t) {
                        lemma_task_pieces(v@, pos as int, j2, t);
                        let o1 = pos as int + "  - name: "@.len();
                        let o2 = o1 + quoted(t.name).len();
                        let o3 = o2 + "\n    description: "@.len();
                        let o4 = o3 + quoted(t.description).len();
                        lemma_quoted_prefix(name@, t.name, v@, p1 as int, p2 as int, o2);
                        assert(v@.subrange(p3 as int, o4) != quoted(t.description));
                    }
                }
            }
            return None;
        },
    };
    let p5: usize = match expect_lit(v, p4, "\n    date_created: ") {
        Some(p) => p,
        None => {
            proof {
                assert forall|t: TaskView, j2: int|
                    pos <= j2 <= v@.len() implies v@.subrange(pos as int, j2) != ser_task(t) by {
                    if v@.subrange(pos as int, j2) == ser_task(t) {
                        lemma_task_pieces(v@, pos as int, j2, t);
                        let o1 = pos as int + "  - name: "@.len();
                        let o2 = o1 + quoted(t.name).len();
                        let o3 = o2 + "\n    description: "@.len();
                        let o4 = o3 + quoted(t.description).len();
                        lemma_quoted_prefix(name@, t.name, v@, p1 as int, p2 as int, o2);
                        lemma_quoted_prefix(description@, t.description, v@, p3 as int, p4 as int, o4);
                    }
                }
            }
            return None;
        },
    };
    let (date_created, p6): (String, usize) = match parse_quoted(v, p5) {
        Some(pair) => pair,
        None => {
            proof {
                assert forall|t: TaskView, j2: int|
                    pos <= j2 <= v@.len() implies v@.subrange(pos as int, j2) != ser_task(t) by {
                    if v@.subrange(pos as int, j2) == ser_task(t) {
                        lemma_task_pieces(v@, pos as int, j2, t);
                        let o1 = pos as int + "  - name: "@.len();
                        let o2 = o1 + quoted(t.name).len();
                        let o3 = o2 + "\n    description: "@.len();
                        let o4 = o3 + quoted(t.description).len();
                        let o5 = o4 + "\n    date_created: "@.len();
                        let o6 = o5 + quoted(t.date_created).len();
                        lemma_quoted_prefix(name@, t.name, v@, p1 as int, p2 as int, o2);
                        lemma_quoted_prefix(description@, t.description, v@, p3 as int, p4 as int, o4);
                        assert(v@.subrange(p5 as int, o6) != quoted(t.date_created));
                    }
                }
            }
            return None;
        },
    };
    let p7: usize = match expect_lit(v, p6, "\n    date_due: ") {
        Some(p) => p,
        None => {
            proof {
                assert forall|t: TaskView, j2: int|
                    pos <= j2 <= v@.len() implies v@.subrange(pos as int, j2) != ser_task(t) by {
                    if v@.subrange(pos as int, j2) == ser_task(t) {
                        lemma_task_pieces(v@, pos as int, j2, t);
                        let o1 = pos as int + "  - name: "@.len();
                        let o2 = o1 + quoted(t.name).len();
                        let o3 = o2 + "\n    description: "@.len();
                        let o4 = o3 + quoted(t.description).len();
                        let o5 = o4 + "\n    date_created: "@.len();
                        let o6 = o5 + quoted(t.date_created).len();
                        lemma_quoted_prefix(name@, t.name, v@, p1 as int, p2 as int, o2);
                        lemma_quoted_prefix(description@, t.description, v@, p3 as int, p4 as int, o4);
                        lemma_quoted_prefix(date_created@, t.date_created, v@, p5 as int, p6 as int, o6);
                    }
                }
            }
            return None;
        },
    };
    let (date_due, p8): (String, usize) = match parse_quoted(v, p7) {
        Some(pair) => pair,
        None => {
            proof {
                assert forall|t: TaskView, j2: int|
                    pos <= j2 <= v@.len() implies v@.subrange(pos as int, j2) != ser_task(t) by {
                    if v@.subrange(pos as int, j2) == ser_task(t) {
                        lemma_task_pieces(v@, pos as int, j2, t);
                        let o1 = pos as int + "  - name: "@.len();
                        let o2 = o1 + quoted(t.name).len();
                        let o3 = o2 + "\n    description: "@.len();
                        let o4 = o3 + quoted(t.description).len();
                        let o5 = o4 + "\n    date_created: "@.len();
                        let o6 = o5 + quoted(t.date_created).len();
                        let o7 = o6 + "\n    date_due: "@.len();
                        let o8 = o7 + quoted(t.date_due).len();
                        lemma_quoted_prefix(name@, t.name, v@, p1 as int, p2 as int, o2);
                        lemma_quoted_prefix(description@, t.description, v@, p3 as int, p4 as int, o4);
                        lemma_quoted_prefix(date_created@, t.date_created, v@, p5 as int, p6 as int, o6);
                        assert(v@.subrange(p7 as int, o8) != quoted(t.date_due));
                    }
                }
            }
            return None;
        },
    };
    let head = HeadFields { name, description, date_created, date_due };
    proof {
        let s = v@;
        lemma_join_step(s, pos as int, p1 as int, p2 as int, "  - name: "@, quoted(head.name@));
        lemma_join_step(
            s,
            pos as int,
            p2 as int,
            p3 as int,
            "  - name: "@ + quoted(head.name@),
            "\n    description: "@,
        );
        lemma_join_step(
            s,
            pos as int,
            p3 as int,
            p4 as int,
            "  - name: "@ + quoted(head.name@) + "\n    description: "@,
            quoted(head.description@),
        );
        lemma_join_step(
            s,
            pos as int,
            p4 as int,
            p5 as int,
            "  - name: "@ + quoted(head.name@) + "\n    description: "@ + quoted(
                head.description@,
            ),
            "\n    date_created: "@,
        );
        lemma_join_step(
            s,
            pos as int,
            p5 as int,
            p6 as int,
            "  - name: "@ + quoted(head.name@) + "\n    description: "@ + quoted(
                head.description@,
            ) + "\n    date_created: "@,
            quoted(head.date_created@),
        );
        lemma_join_step(
            s,
            pos as int,
            p6 as int,
            p7 as int,
            "  - name: "@ + quoted(head.name@) + "\n    description: "@ + quoted(
                head.description@,
            ) + "\n    date_created: "@ + quoted(head.date_created@),
            "\n    date_due: "@,
        );
        lemma_join_step(
            s,
            pos as int,
            p7 as int,
            p8 as int,
            "  - name: "@ + quoted(head.name@) + "\n    description: "@ + quoted(
                head.description@,
            ) + "\n    date_created: "@ + quoted(head.date_created@) + "\n    date_due: "@,
            quoted(head.date_due@),
        );
    }
    Some((head, p8))
}

/// No whole task record can stand at `pos` when parsing fails here.
pub proof fn lemma_no_rec_status_label(
    v: Seq<char>,
    pos: int,
    p8: int,
    hn: Seq<char>,
    hd: Seq<char>,
    hc: Seq<char>,
    hu: Seq<char>,
)
    requires
        0 <= pos <= p8 <= v.len(),
        v.subrange(pos, p8) == ser_head(hn, hd, hc, hu),
        !(p8 + "\n    status: "@.len() <= v.len() && v.subrange(p8, p8 + "\n    status: "@.len()) == "\n    status: "@),
    ensures
        forall|t: TaskView, j2: int| pos <= j2 <= v.len() ==> v.subrange(pos, j2) != ser_task(t),
{
    assert forall|t: TaskView, j2: int|
        pos <= j2 <= v.len() implies v.subrange(pos, j2) != ser_task(t) by {
        if v.subrange(pos, j2) == ser_task(t) {
            lemma_task_head_piece(v, pos, j2, t);
                        let o8 = pos + "  - name: "@.len() + quoted(t.name).len()
                            + "\n    description: "@.len() + quoted(t.description).len()
                            + "\n    date_created: "@.len() + quoted(t.date_created).len()
                            + "\n    date_due: "@.len() + quoted(t.date_due).len();
                        let o9 = o8 + "\n    status: "@.len();
                        lemma_ser_head_align(v, pos, hn, hd, hc, hu, t.name, t.description,
                            t.date_created, t.date_due, p8, o8);
        }
    }
}

/// No whole task record can stand at `pos` when parsing fails here.
pub proof fn lemma_no_rec_status_value(
    v: Seq<char>,
    pos: int,
    p8: int,
    hn: Seq<char>,
    hd: Seq<char>,
    hc: Seq<char>,
    hu: Seq<char>,
    p9: int,
)
    requires
        0 <= pos <= p8 <= v.len(),
        v.subrange(pos, p8) == ser_head(hn, hd, hc, hu),
        p8 <= p9 <= v.len(),
        p9 == p8 + "\n    status: "@.len(),
        v.subrange(p8, p9) == "\n    status: "@,
        forall|st2: Status, j2: int| p9 <= j2 <= v.len() ==> v.subrange(p9, j2) != status_text(st2),
    ensures
        forall|t: TaskView, j2: int| pos <= j2 <= v.len() ==> v.subrange(pos, j2) != ser_task(t),
{
    assert forall|t: TaskView, j2: int|
        pos <= j2 <= v.len() implies v.subrange(pos, j2) != ser_task(t) by {
        if v.subrange(pos, j2) == ser_task(t) {
            lemma_task_head_piece(v, pos, j2, t);
                        let o8 = pos + "  - name: "@.len() + quoted(t.name).len()
                            + "\n    description: "@.len() + quoted(t.description).len()
                            + "\n    date_created: "@.len() + quoted(t.date_created).len()
                            + "\n    date_due: "@.len() + quoted(t.date_due).len();
                        let o9 = o8 + "\n    status: "@.len();
                        let o10 = o9 + status_text(t.status).len();
                        lemma_ser_head_align(v, pos, hn, hd, hc, hu, t.name, t.description,
                            t.date_created, t.date_due, p8, o8);
                        assert(v.subrange(p9, o10) != status_text(t.status));
        }
    }
}

/// No whole task record can stand at `pos` when parsing fails here.
pub proof fn lemma_no_rec_repeats_label(
    v: Seq<char>,
    pos: int,
    p8: int,
    hn: Seq<char>,
    hd: Seq<char>,
    hc: Seq<char>,
    hu: Seq<char>,
    p9: int,
    p10: int,
    st: Status,
)
    requires
        0 <= pos <= p8 <= v.len(),
        v.subrange(pos, p8) == ser_head(hn, hd, hc, hu),
        p8 <= p9 <= p10 <= v.len(),
        p9 == p8 + "\n    status: "@.len(),
        v.subrange(p8, p9) == "\n    status: "@,
        v.subrange(p9, p10) == status_text(st),
        !(p10 + "\n    repeats: "@.len() <= v.len() && v.subrange(p10, p10 + "\n    repeats: "@.len()) == "\n    repeats: "@),
    ensures
        forall|t: TaskView, j2: int| pos <= j2 <= v.len() ==> v.subrange(pos, j2) != ser_task(t),
{
    assert forall|t: TaskView, j2: int|
        pos <= j2 <= v.len() implies v.subrange(pos, j2) != ser_task(t) by {
        if v.subrange(pos, j2) == ser_task(t) {
            lemma_task_head_piece(v, pos, j2, t);
                        let o8 = pos + "  - name: "@.len() + quoted(t.name).len()
                            + "\n    description: "@.len() + quoted(t.description).len()
                            + "\n    date_created: "@.len() + quoted(t.date_created).len()
                            + "\n    date_due: "@.len() + quoted(t.date_due).len();
                        let o9 = o8 + "\n    status: "@.len();
                        let o10 = o9 + status_text(t.status).len();
                        lemma_ser_head_align(v, pos, hn, hd, hc, hu, t.name, t.description,
                            t.date_created, t.date_due, p8, o8);
                        lemma_status_at(v, p9, st, t.status, p10, o10);
        }
    }
}

/// No whole task record can stand at `pos` when parsing fails here.
pub proof fn lemma_no_rec_repeats_value(
    v: Seq<char>,
    pos: int,
    p8: int,
    hn: Seq<char>,
    hd: Seq<char>,
    hc: Seq<char>,
    hu: Seq<char>,
    p9: int,
    p10: int,
    p11: int,
    st: Status,
)
    requires
        0 <= pos <= p8 <= v.len(),
        v.subrange(pos, p8) == ser_head(hn, hd, hc, hu),
        p8 <= p9 <= p10 <= p11 <= v.len(),
        p9 == p8 + "\n    status: "@.len(),
        v.subrange(p8, p9) == "\n    status: "@,
        v.subrange(p9, p10) == status_text(st),
        p11 == p10 + "\n    repeats: "@.len(),
        v.subrange(p10, p11) == "\n    repeats: "@,
        forall|b: bool, j2: int| p11 <= j2 <= v.len() ==> v.subrange(p11, j2) != bool_text(b),
    ensures
        forall|t: TaskView, j2: int| pos <= j2 <= v.len() ==> v.subrange(pos, j2) != ser_task(t),
{
    assert forall|t: TaskView, j2: int|
        pos <= j2 <= v.len() implies v.subrange(pos, j2) != ser_task(t) by {
        if v.subrange(pos, j2) == ser_task(t) {
            lemma_task_head_piece(v, pos, j2, t);
                        let o8 = pos + "  - name: "@.len() + quoted(t.name).len()
                            + "\n    description: "@.len() + quoted(t.description).len()
                            + "\n    date_created: "@.len() + quoted(t.date_created).len()
                            + "\n    date_due: "@.len() + quoted(t.date_due).len();
                        let o9 = o8 + "\n    status: "@.len();
                        let o10 = o9 + status_text(t.status).len();
                        let o11 = o10 + "\n    repeats: "@.len();
                        let o12 = o11 + bool_text(t.repeats).len();
                        lemma_ser_head_align(v, pos, hn, hd, hc, hu, t.name, t.description,
                            t.date_created, t.date_due, p8, o8);
                        lemma_status_at(v, p9, st, t.status, p10, o10);
                        assert(v.subrange(p11, o12) != bool_text(t.repeats));
        }
    }
}

/// No whole task record can stand at `pos` when parsing fails here.
pub proof fn lemma_no_rec_revery_label(
    v: Seq<char>,
    pos: int,
    p8: int,
    hn: Seq<char>,
    hd: Seq<char>,
    hc: Seq<char>,
    hu: Seq<char>,
    p9: int,
    p10: int,
    p11: int,
    p12: int,
    st: Status,
    rp: bool,
)
    requires
        0 <= pos <= p8 <= v.len(),
        v.subrange(pos, p8) == ser_head(hn, hd, hc, hu),
        p8 <= p9 <= p10 <= p11 <= p12 <= v.len(),
        p9 == p8 + "\n    status: "@.len(),
        v.subrange(p8, p9) == "\n    status: "@,
        v.subrange(p9, p10) == status_text(st),
        p11 == p10 + "\n    repeats: "@.len(),
        v.subrange(p10, p11) == "\n    repeats: "@,
        v.subrange(p11, p12) == bool_text(rp),
        !(p12 + "\n    repeats_every: "@.len() <= v.len() && v.subrange(p12, p12 + "\n    repeats_every: "@.len()) == "\n    repeats_every: "@),
    ensures
        forall|t: TaskView, j2: int| pos <= j2 <= v.len() ==> v.subrange(pos, j2) != ser_task(t),
{
    assert forall|t: TaskView, j2: int|
        pos <= j2 <= v.len() implies v.subrange(pos, j2) != ser_task(t) by {
        if v.subrange(pos, j2) == ser_task(t) {
            lemma_task_head_piece(v, pos, j2, t);
                        let o8 = pos + "  - name: "@.len() + quoted(t.name).len()
                            + "\n    description: "@.len() + quoted(t.description).len()
                            + "\n    date_created: "@.len() + quoted(t.date_created).len()
                            + "\n    date_due: "@.len() + quoted(t.date_due).len();
                        let o9 = o8 + "\n    status: "@.len();
                        let o10 = o9 + status_text(t.status).len();
                        let o11 = o10 + "\n    repeats: "@.len();
                        let o12 = o11 + bool_text(t.repeats).len();
                        lemma_ser_head_align(v, pos, hn, hd, hc, hu, t.name, t.description,
                            t.date_created, t.date_due, p8, o8);
                        lemma_status_at(v, p9, st, t.status, p10, o10);
                        lemma_bool_at(v, p11, rp, t.repeats, p12, o12);
        }
    }
}

/// No whole task record can stand at `pos` when parsing fails here.
pub proof fn lemma_no_rec_revery_value(
    v: Seq<char>,
    pos: int,
    p8: int,
    hn: Seq<char>,
    hd: Seq<char>,
    hc: Seq<char>,
    hu: Seq<char>,
    p9: int,
    p10: int,
    p11: int,
    p12: int,
    p13: int,
    st: Status,
    rp: bool,
)
    requires
        0 <= pos <= p8 <= v.len(),
        v.subrange(pos, p8) == ser_head(hn, hd, hc, hu),
        p8 <= p9 <= p10 <= p11 <= p12 <= p13 <= v.len(),
        p9 == p8 + "\n    status: "@.len(),
        v.subrange(p8, p9) == "\n    status: "@,
        v.subrange(p9, p10) == status_text(st),
        p11 == p10 + "\n    repeats: "@.len(),
        v.subrange(p10, p11) == "\n    repeats: "@,
        v.subrange(p11, p12) == bool_text(rp),
        p13 == p12 + "\n    repeats_every: "@.len(),
        v.subrange(p12, p13) == "\n    repeats_every: "@,
        forall|t2: Seq<char>, j2: int| p13 <= j2 <= v.len() ==> v.subrange(p13, j2) != quoted(t2),
    ensures
        forall|t: TaskView, j2: int| pos <= j2 <= v.len() ==> v.subrange(pos, j2) != ser_task(t),
{
    assert forall|t: TaskView, j2: int|
        pos <= j2 <= v.len() implies v.subrange(pos, j2) != ser_task(t) by {
        if v.subrange(pos, j2) == ser_task(t) {
            lemma_task_head_piece(v, pos, j2, t);
                        let o8 = pos + "  - name: "@.len() + quoted(t.name).len()
                            + "\n    description: "@.len() + quoted(t.description).len()
                            + "\n    date_created: "@.len() + quoted(t.date_created).len()
                            + "\n    date_due: "@.len() + quoted(t.date_due).len();
                        let o9 = o8 + "\n    status: "@.len();
                        let o10 = o9 + status_text(t.status).len();
                        let o11 = o10 + "\n    repeats: "@.len();
                        let o12 = o11 + bool_text(t.repeats).len();
                        let o13 = o12 + "\n    repeats_every: "@.len();
                        let o14 = o13 + quoted(t.repeats_every).len();
                        lemma_ser_head_align(v, pos, hn, hd, hc, hu, t.name, t.description,
                            t.date_created, t.date_due, p8, o8);
                        lemma_status_at(v, p9, st, t.status, p10, o10);
                        lemma_bool_at(v, p11, rp, t.repeats, p12, o12);
                        assert(v.subrange(p13, o14) != quoted(t.repeats_every));
        }
    }
}

/// No whole task record can stand at `pos` when parsing fails here.
pub proof fn lemma_no_rec_id_label(
    v: Seq<char>,
    pos: int,
    p8: int,
    hn: Seq<char>,
    hd: Seq<char>,
    hc: Seq<char>,
    hu: Seq<char>,
    p9: int,
    p10: int,
    p11: int,
    p12: int,
    p13: int,
    st: Status,
    rp: bool,
    p14: int,
    re: Seq<char>,
)
    requires
        0 <= pos <= p8 <= v.len(),
        v.subrange(pos, p8) == ser_head(hn, hd, hc, hu),
        p8 <= p9 <= p10 <= p11 <= p12 <= p13 <= v.len(),
        p9 == p8 + "\n    status: "@.len(),
        v.subrange(p8, p9) == "\n    status: "@,
        v.subrange(p9, p10) == status_text(st),
        p11 == p10 + "\n    repeats: "@.len(),
        v.subrange(p10, p11) == "\n    repeats: "@,
        v.subrange(p11, p12) == bool_text(rp),
        p13 == p12 + "\n    repeats_every: "@.len(),
        v.subrange(p12, p13) == "\n    repeats_every: "@,
        p13 <= p14 <= v.len(),
        v.subrange(p13, p14) == quoted(re),
        !(p14 + "\n    id: "@.len() <= v.len() && v.subrange(p14, p14 + "\n    id: "@.len()) == "\n    id: "@),
    ensures
        forall|t: TaskView, j2: int| pos <= j2 <= v.len() ==> v.subrange(pos, j2) != ser_task(t),
{
    assert forall|t: TaskView, j2: int|
        pos <= j2 <= v.len() implies v.subrange(pos, j2) != ser_task(t) by {
        if v.subrange(pos, j2) == ser_task(t) {
            lemma_task_head_piece(v, pos, j2, t);
                        let o8 = pos + "  - name: "@.len() + quoted(t.name).len()
                            + "\n    description: "@.len() + quoted(t.description).len()
                            + "\n    date_created: "@.len() + quoted(t.date_created).len()
                            + "\n    date_due: "@.len() + quoted(t.date_due).len();
                        let o9 = o8 + "\n    status: "@.len();
                        let o10 = o9 + status_text(t.status).len();
                        let o11 = o10 + "\n    repeats: "@.len();
                        let o12 = o11 + bool_text(t.repeats).len();
                        let o13 = o12 + "\n    repeats_every: "@.len();
                        let o14 = o13 + quoted(t.repeats_every).len();
                        lemma_ser_head_align(v, pos, hn, hd, hc, hu, t.name, t.description,
                            t.date_created, t.date_due, p8, o8);
                        lemma_status_at(v, p9, st, t.status, p10, o10);
                        lemma_bool_at(v, p11, rp, t.repeats, p12, o12);
                        lemma_quoted_prefix(re, t.repeats_every, v, p13, p14, o14);
        }
    }
}

/// No whole task record can stand at `pos` when parsing fails here.
pub proof fn lemma_no_rec_id_value(
    v: Seq<char>,
    pos: int,
    p8: int,
    hn: Seq<char>,
    hd: Seq<char>,
    hc: Seq<char>,
    hu: Seq<char>,
    p9: int,
    p10: int,
    p11: int,
    p12: int,
    p13: int,
    st: Status,
    rp: bool,
    p14: int,
    p15: int,
    re: Seq<char>,
)
    requires
        0 <= pos <= p8 <= v.len(),
        v.subrange(pos, p8) == ser_head(hn, hd, hc, hu),
        p8 <= p9 <= p10 <= p11 <= p12 <= p13 <= v.len(),
        p9 == p8 + "\n    status: "@.len(),
        v.subrange(p8, p9) == "\n    status: "@,
        v.subrange(p9, p10) == status_text(st),
        p11 == p10 + "\n    repeats: "@.len(),
        v.subrange(p10, p11) == "\n    repeats: "@,
        v.subrange(p11, p12) == bool_text(rp),
        p13 == p12 + "\n    repeats_every: "@.len(),
        v.subrange(p12, p13) == "\n    repeats_every: "@,
        p13 <= p14 <= p15 <= v.len(),
        v.subrange(p13, p14) == quoted(re),
        p15 == p14 + "\n    id: "@.len(),
        v.subrange(p14, p15) == "\n    id: "@,
        forall|n2: u64, j2: int| p15 <= j2 <= v.len() && (j2 == v.len() || !is_digit(v[j2])) ==> v.subrange(p15, j2) != dec(n2 as nat),
    ensures
        forall|t: TaskView, j2: int| pos <= j2 <= v.len() ==> v.subrange(pos, j2) != ser_task(t),
{
    assert forall|t: TaskView, j2: int|
        pos <= j2 <= v.len() implies v.subrange(pos, j2) != ser_task(t) by {
        if v.subrange(pos, j2) == ser_task(t) {
                reveal_strlit("\n");
            lemma_task_head_piece(v, pos, j2, t);
                        let o8 = pos + "  - name: "@.len() + quoted(t.name).len()
                            + "\n    description: "@.len() + quoted(t.description).len()
                            + "\n    date_created: "@.len() + quoted(t.date_created).len()
                            + "\n    date_due: "@.len() + quoted(t.date_due).len();
                        let o9 = o8 + "\n    status: "@.len();
                        let o10 = o9 + status_text(t.status).len();
                        let o11 = o10 + "\n    repeats: "@.len();
                        let o12 = o11 + bool_text(t.repeats).len();
                        let o13 = o12 + "\n    repeats_every: "@.len();
                        let o14 = o13 + quoted(t.repeats_every).len();
                        let o15 = o14 + "\n    id: "@.len();
                        let o16 = o15 + dec(t.id as nat).len();
                        let o17 = o16 + "\n"@.len();
                        lemma_ser_head_align(v, pos, hn, hd, hc, hu, t.name, t.description,
                            t.date_created, t.date_due, p8, o8);
                        lemma_status_at(v, p9, st, t.status, p10, o10);
                        lemma_bool_at(v, p11, rp, t.repeats, p12, o12);
                        lemma_quoted_prefix(re, t.repeats_every, v, p13, p14, o14);
                        assert(v.subrange(o16, o17)[0] == v[o16]);
                        assert(v[o16] == '\n');
                        assert(!is_digit('\n'));
                        assert(v.subrange(p15, o16) != dec(t.id as nat));
        }
    }
}

/// No whole task record can stand at `pos` when parsing fails here.
pub proof fn lemma_no_rec_end_label(
    v: Seq<char>,
    pos: int,
    p8: int,
    hn: Seq<char>,
    hd: Seq<char>,
    hc: Seq<char>,
    hu: Seq<char>,
    p9: int,
    p10: int,
    p11: int,
    p12: int,
    p13: int,
    st: Status,
    rp: bool,
    p14: int,
    p15: int,
    p16: int,
    re: Seq<char>,
    idv: u64,
)
    requires
        0 <= pos <= p8 <= v.len(),
        v.subrange(pos, p8) == ser_head(hn, hd, hc, hu),
        p8 <= p9 <= p10 <= p11 <= p12 <= p13 <= v.len(),
        p9 == p8 + "\n    status: "@.len(),
        v.subrange(p8, p9) == "\n    status: "@,
        v.subrange(p9, p10) == status_text(st),
        p11 == p10 + "\n    repeats: "@.len(),
        v.subrange(p10, p11) == "\n    repeats: "@,
        v.subrange(p11, p12) == bool_text(rp),
        p13 == p12 + "\n    repeats_every: "@.len(),
        v.subrange(p12, p13) == "\n    repeats_every: "@,
        p13 <= p14 <= p15 <= p16 <= v.len(),
        v.subrange(p13, p14) == quoted(re),
        p15 == p14 + "\n    id: "@.len(),
        v.subrange(p14, p15) == "\n    id: "@,
        v.subrange(p15, p16) == dec(idv as nat),
        p16 == v.len() || !is_digit(v[p16]),
        !(p16 + "\n"@.len() <= v.len() && v.subrange(p16, p16 + "\n"@.len()) == "\n"@),
    ensures
        forall|t: TaskView, j2: int| pos <= j2 <= v.len() ==> v.subrange(pos, j2) != ser_task(t),
{
    assert forall|t: TaskView, j2: int|
        pos <= j2 <= v.len() implies v.subrange(pos, j2) != ser_task(t) by {
        if v.subrange(pos, j2) == ser_task(t) {
                reveal_strlit("\n");
            lemma_task_head_piece(v, pos, j2, t);
                        let o8 = pos + "  - name: "@.len() + quoted(t.name).len()
                            + "\n    description: "@.len() + quoted(t.description).len()
                            + "\n    date_created: "@.len() + quoted(t.date_created).len()
                            + "\n    date_due: "@.len() + quoted(t.date_due).len();
                        let o9 = o8 + "\n    status: "@.len();
                        let o10 = o9 + status_text(t.status).len();
                        let o11 = o10 + "\n    repeats: "@.len();
                        let o12 = o11 + bool_text(t.repeats).len();
                        let o13 = o12 + "\n    repeats_every: "@.len();
                        let o14 = o13 + quoted(t.repeats_every).len();
                        let o15 = o14 + "\n    id: "@.len();
                        let o16 = o15 + dec(t.id as nat).len();
                        let o17 = o16 + "\n"@.len();
                        lemma_ser_head_align(v, pos, hn, hd, hc, hu, t.name, t.description,
                            t.date_created, t.date_due, p8, o8);
                        lemma_status_at(v, p9, st, t.status, p10, o10);
                        lemma_bool_at(v, p11, rp, t.repeats, p12, o12);
                        lemma_quoted_prefix(re, t.repeats_every, v, p13, p14, o14);
                        assert(v.subrange(o16, o17)[0] == v[o16]);
                        assert(v[o16] == '\n');
                        assert(!is_digit('\n'));
                        assert(v.subrange(o16, o17)[0] == v[o16]);
                        assert(v[o16] == '\n');
                        assert(!is_digit('\n'));
                        lemma_dec_at(v, p15, idv as nat, t.id as nat, p16, o16);
        }
    }
}

/// The pieces read one after another assemble into one written record.
#[verifier::rlimit(100)]
pub proof fn lemma_task_assemble(
    s: Seq<char>,
    pos: int,
    p8: int,
    p9: int,
    p10: int,
    p11: int,
    p12: int,
    p13: int,
    p14: int,
    p15: int,
    p16: int,
    p17: int,
    t: TaskView,
)
    requires
        0 <= pos <= p8 <= p9 <= p10 <= p11 <= p12 <= p13 <= p14 <= p15 <= p16 <= p17 <= s.len(),
        s.subrange(pos, p8) == ser_head(t.name, t.description, t.date_created, t.date_due),
        s.subrange(p8, p9) == "\n    status: "@,
        s.subrange(p9, p10) == status_text(t.status),
        s.subrange(p10, p11) == "\n    repeats: "@,
        s.subrange(p11, p12) == bool_text(t.repeats),
        s.subrange(p12, p13) == "\n    repeats_every: "@,
        s.subrange(p13, p14) == quoted(t.repeats_every),
        s.subrange(p14, p15) == "\n    id: "@,
        s.subrange(p15, p16) == dec(t.id as nat),
        s.subrange(p16, p17) == "\n"@,
    ensures
        s.subrange(pos, p17) == ser_task(t),
{
    let hd = ser_head(t.name, t.description, t.date_created, t.date_due);
    lemma_join_step(s, pos, p8, p9, hd, "\n    status: "@);
    lemma_join_step(s, pos, p9, p10, hd + "\n    status: "@, status_text(t.status));
    lemma_join_step(s, pos, p10, p11, hd + "\n    status: "@ + status_text(t.status),
        "\n    repeats: "@);
    lemma_join_step(s, pos, p11, p12, hd + "\n    status: "@ + status_text(t.status)
        + "\n    repeats: "@, bool_text(t.repeats));
    lemma_join_step(s, pos, p12, p13, hd + "\n    status: "@ + status_text(t.status)
        + "\n    repeats: "@ + bool_text(t.repeats), "\n    repeats_every: "@);
    lemma_join_step(s, pos, p13, p14, hd + "\n    status: "@ + status_text(t.status)
        + "\n    repeats: "@ + bool_text(t.repeats) + "\n    repeats_every: "@,
        quoted(t.repeats_every));
    lemma_join_step(s, pos, p14, p15, hd + "\n    status: "@ + status_text(t.status)
        + "\n    repeats: "@ + bool_text(t.repeats) + "\n    repeats_every: "@
        + quoted(t.repeats_every), "\n    id: "@);
    lemma_join_step(s, pos, p15, p16, hd + "\n    status: "@ + status_text(t.status)
        + "\n    repeats: "@ + bool_text(t.repeats) + "\n    repeats_every: "@
        + quoted(t.repeats_every) + "\n    id: "@, dec(t.id as nat));
    lemma_join_step(s, pos, p16, p17, hd + "\n    status: "@ + status_text(t.status)
        + "\n    repeats: "@ + bool_text(t.repeats) + "\n    repeats_every: "@
        + quoted(t.repeats_every) + "\n    id: "@ + dec(t.id as nat), "\n"@);
    assert(s.subrange(pos, p17) == ser_task(t));
}

/// Reads one task record at `pos`: the task and its end, or nothing when no
/// written record stands there.
fn parse_task(v: &Vec<char>, pos: usize) -> (r: Option<(Task, usize)>)
    requires
        pos <= v@.len(),
    ensures
        match r {
            Some((t, j)) => pos < j <= v@.len() && v@.subrange(pos as int, j as int) == ser_task(
                t@,
            ),
            None => forall|t: TaskView, j2: int|
                pos <= j2 <= v@.len() ==> v@.subrange(pos as int, j2) != ser_task(t),
        },
{
    let (head, p8): (HeadFields, usize) = match parse_task_head(v, pos) {
        Some(pair) => pair,
        None => {
            return None;
        },
    };
    let ghost hn = head.name@;
    let ghost hd = head.description@;
    let ghost hc = head.date_created@;
    let ghost hu = head.date_due@;
    let p9: usize = match expect_lit(v, p8, "\n    status: ") {
        Some(p) => p,
        None => {
            proof {
                lemma_no_rec_status_label(v@, pos as int, p8 as int, hn, hd, hc, hu);
            }
            return None;
        },
    };
    let (status, p10): (Status, usize) = match parse_status(v, p9) {
        Some(pair) => pair,
        None => {
            proof {
                lemma_no_rec_status_value(v@, pos as int, p8 as int, hn, hd, hc, hu, p9 as int);
            }
            return None;
        },
    };
    let p11: usize = match expect_lit(v, p10, "\n    repeats: ") {
        Some(p) => p,
        None => {
            proof {
                lemma_no_rec_repeats_label(
                    v@, pos as int, p8 as int, hn, hd, hc, hu, p9 as int, p10 as int, status,
                );
            }
            return None;
        },
    };
    let (repeats, p12): (bool, usize) = match parse_bool(v, p11) {
        Some(pair) => pair,
        None => {
            proof {
                lemma_no_rec_repeats_value(
                    v@, pos as int, p8 as int, hn, hd, hc, hu, p9 as int, p10 as int, p11 as int,
                    status,
                );
            }
            return None;
        },
    };
    let p13: usize = match expect_lit(v, p12, "\n    repeats_every: ") {
        Some(p) => p,
        None => {
            proof {
                lemma_no_rec_revery_label(
                    v@, pos as int, p8 as int, hn, hd, hc, hu, p9 as int, p10 as int, p11 as int,
                    p12 as int, status, repeats,
                );
            }
            return None;
        },
    };
    let (repeats_every, p14): (String, usize) = match parse_quoted(v, p13) {
        Some(pair) => pair,
        None => {
            proof {
                lemma_no_rec_revery_value(
                    v@, pos as int, p8 as int, hn, hd, hc, hu, p9 as int, p10 as int, p11 as int,
                    p12 as int, p13 as int, status, repeats,
                );
            }
            return None;
        },
    };
    let p15: usize = match expect_lit(v, p14, "\n    id: ") {
        Some(p) => p,
        None => {
            proof {
                lemma_no_rec_id_label(
                    v@, pos as int, p8 as int, hn, hd, hc, hu, p9 as int, p10 as int, p11 as int,
                    p12 as int, p13 as int, status, repeats, p14 as int, repeats_every@,
                );
            }
            return None;
        },
    };
    let (idv, p16): (u64, usize) = match parse_dec(v, p15) {
        Some(pair) => pair,
        None => {
            proof {
                lemma_no_rec_id_value(
                    v@, pos as int, p8 as int, hn, hd, hc, hu, p9 as int, p10 as int, p11 as int,
                    p12 as int, p13 as int, status, repeats, p14 as int, p15 as int,
                    repeats_every@,
                );
            }
            return None;
        },
    };
    let p17: usize = match expect_lit(v, p16, "\n") {
        Some(p) => p,
        None => {
            proof {
                lemma_no_rec_end_label(
                    v@, pos as int, p8 as int, hn, hd, hc, hu, p9 as int, p10 as int, p11 as int,
                    p12 as int, p13 as int, status, repeats, p14 as int, p15 as int, p16 as int,
                    repeats_every@, idv,
                );
            }
            return None;
        },
    };
    let task = Task {
        name: head.name,
        description: head.description,
        date_created: head.date_created,
        date_due: head.date_due,
        status: status,
        repeats: repeats,
        repeats_every: repeats_every,
        id: idv,
    };
    proof {
        lemma_task_assemble(
            v@, pos as int, p8 as int, p9 as int, p10 as int, p11 as int, p12 as int, p13 as int,
            p14 as int, p15 as int, p16 as int, p17 as int, task@,
        );
    }
    Some((task, p17))
}

/// Parses the persisted text form back into the collection it serializes:
/// the one collection whose serialization is the text, or a format failure
/// when the text is the serialization of none.
pub fn deserialize_tasks_string(tasks_string_data: &str) -> (r: Result<TasksDataBase, DbError>)
    ensures
        match r {
            Ok(db) => spec_parse(tasks_string_data@) == Some(db@),
            Err(e) => spec_parse(tasks_string_data@) is None && e == DbError::FormatFailure,
        },
{
    let v: Vec<char> = str_to_chars(tasks_string_data);
    let ghost s = tasks_string_data@;
    proof {
        reveal_strlit("---\ntasks: []\n");
        reveal_strlit("---\ntasks:\n");
    }
    match expect_lit(&v, 0, "---\ntasks: []\n") {
        Some(j) => {
            if j == v.len() {
                let db = TasksDataBase { tasks: Vec::new() };
                proof {
                    assert(s =~= "---\ntasks: []\n"@);
                    assert(db@ =~= Seq::<TaskView>::empty());
                    assert(spec_serialize(db@) == s);
                    assert(exists|ts: Seq<TaskView>| spec_serialize(ts) == s);
                    let x = choose|ts: Seq<TaskView>| spec_serialize(ts) == s;
                    lemma_serialize_injective(x, db@);
                }
                return Ok(db);
            } else {
                proof {
                    assert forall|ts: Seq<TaskView>| spec_serialize(ts) != s by {
                        if spec_serialize(ts) == s {
                            if ts.len() == 0 {
                                assert(s.len() == 14);
                            } else {
                                assert(s[10] == "---\ntasks:\n"@[10]);
                                assert(s[10] == v@.subrange(0, 14)[10]);
                            }
                        }
                    }
                    assert(spec_parse(s) is None);
                }
                return Err(DbError::FormatFailure);
            }
        },
        None => {},
    }
    let start: usize = match expect_lit(&v, 0, "---\ntasks:\n") {
        Some(p) => p,
        None => {
            proof {
                assert forall|ts: Seq<TaskView>| spec_serialize(ts) != s by {
                    if spec_serialize(ts) == s {
                        if ts.len() == 0 {
                            assert(s.subrange(0, 14) =~= "---\ntasks: []\n"@);
                        } else {
                            assert(s.subrange(0, 11) =~= "---\ntasks:\n"@);
                        }
                    }
                }
                assert(spec_parse(s) is None);
            }
            return Err(DbError::FormatFailure);
        },
    };
    let mut tasks: Vec<Task> = Vec::new();
    let mut p: usize = start;
    while p < v.len()
        invariant
            start == 11,
            start <= p <= v@.len(),
            s == v@,
            s == tasks_string_data@,
            v@.subrange(0, start as int) == "---\ntasks:\n"@,
            "---\ntasks:\n"@.len() == 11,
            "---\ntasks: []\n"@.len() == 14,
            "---\ntasks: []\n"@[10] == ' ',
            "---\ntasks:\n"@[10] == '\n',
            v@.subrange(start as int, p as int) == ser_tasks(tasks_view(tasks@)),
        decreases v@.len() - p,
    {
        match parse_task(&v, p) {
            Some((task, q)) => {
                let ghost prev = tasks_view(tasks@);
                tasks.push(task);
                proof {
                    assert(tasks_view(tasks@) =~= prev.push(task@));
                    lemma_ser_tasks_app(prev, seq![task@]);
                    lemma_ser_tasks_one(task@);
                    lemma_join_step(
                        v@,
                        start as int,
                        p as int,
                        q as int,
                        ser_tasks(prev),
                        ser_task(task@),
                    );
                    assert(prev.push(task@) =~= prev + seq![task@]);
                }
                p = q;
            },
            None => {
                proof {
                    assert forall|ts: Seq<TaskView>| spec_serialize(ts) != s by {
                        if spec_serialize(ts) == s {
                            if ts.len() == 0 {
                                assert(s[10] == ' ');
                                assert(s[10] == v@.subrange(0, start as int)[10]);
                                assert(false);
                            }
                            assert(s =~= "---\ntasks:\n"@ + ser_tasks(ts));
                            assert(s.subrange(start as int, s.len() as int) =~= ser_tasks(ts));
                            lemma_ser_tasks_align(
                                ts,
                                tasks_view(tasks@),
                                s,
                                start as int,
                                p as int,
                                s.len() as int,
                            );
                            let more = ts.skip(tasks_view(tasks@).len() as int);
                            if more.len() == 0 {
                                assert(ser_tasks(more) == Seq::<char>::empty());
                                assert(p == s.len());
                                assert(false);
                            }
                            assert(ser_tasks(more) == ser_task(more[0]) + ser_tasks(
                                more.drop_first(),
                            ));
                            assert(ser_tasks(more).len() == s.len() - p);
                            assert(ser_task(more[0]).len() <= s.len() - p);
                            let q2 = p + ser_task(more[0]).len();
                            assert forall|i: int|
                                0 <= i < ser_task(more[0]).len() implies v@.subrange(
                                p as int,
                                q2 as int,
                            )[i] == ser_task(more[0])[i] by {
                                assert(v@.subrange(p as int, s.len() as int)[i] == v@[p + i]);
                            }
                            assert(v@.subrange(p as int, q2 as int) =~= ser_task(more[0]));
                            assert(v@.subrange(p as int, q2 as int) != ser_task(more[0]));
                        }
                    }
                    assert(spec_parse(s) is None);
                }
                return Err(DbError::FormatFailure);
            },
        }
    }
    if tasks.len() == 0 {
        proof {
            assert forall|ts: Seq<TaskView>| spec_serialize(ts) != s by {
                if spec_serialize(ts) == s {
                    if ts.len() == 0 {
                        assert(s[10] == ' ');
                        assert(s[10] == v@.subrange(0, start as int)[10]);
                        assert(false);
                    }
                    assert(s =~= "---\ntasks:\n"@ + ser_tasks(ts));
                    assert(s.len() == 11 + ser_tasks(ts).len());
                    lemma_ser_task_nonempty(ts[0]);
                    assert(ser_tasks(ts).len() >= ser_task(ts[0]).len());
                    assert(tasks_view(tasks@).len() == 0);
                    assert(ser_tasks(tasks_view(tasks@)) == Seq::<char>::empty());
                    assert(p == start);
                    assert(p == v@.len());
                }
            }
            assert(spec_parse(s) is None);
        }
        return Err(DbError::FormatFailure);
    }
    let db = TasksDataBase { tasks };
    proof {
        lemma_join_step(
            v@,
            0,
            start as int,
            v@.len() as int,
            "---\ntasks:\n"@,
            ser_tasks(db@),
        );
        assert(v@.subrange(0, v@.len() as int) =~= s);
        assert(spec_serialize(db@) == s);
        assert(exists|ts: Seq<TaskView>| spec_serialize(ts) == s);
        let x = choose|ts: Seq<TaskView>| spec_serialize(ts) == s;
        lemma_serialize_injective(x, db@);
    }
    Ok(db)
}

} // verus!
