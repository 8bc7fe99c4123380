//! The persistence codec: a stable, diff-friendly text encoding of the whole
//! store, and its parser.
//!
//! One record per task, fields in fixed order, one field per line, the
//! top-level collection in insertion order. Free-form text is carried
//! length-prefixed (`<length>:<characters>`), so any character, a line break
//! included, round-trips without escaping. The status tags `Todo` and `Done`
//! are part of the compatibility surface. A parse failure of any kind is
//! reported, never a fault; the caller substitutes an empty store.

use vstd::prelude::*;
use vstd::string::StrSliceExecFns;
use vstd::string::StringExecFns;

use crate::store::ids_unique;
use crate::store::views_of;
use crate::store::wf_ids;
use crate::store::Tasks;
use crate::Status;
use crate::Task;
use crate::TaskError;
use crate::TaskModel;

verus! {

/// True of the ten decimal digit characters.
pub open spec fn is_digit(c: char) -> bool {
    48 <= c as int <= 57
}

/// The numeric value of a digit character.
pub open spec fn digit_val(c: char) -> int {
    c as int - 48
}

/// The digit character for a value below ten.
pub open spec fn digit_char(d: int) -> char {
    if d == 0 {
        '0'
    } else if d == 1 {
        '1'
    } else if d == 2 {
        '2'
    } else if d == 3 {
        '3'
    } else if d == 4 {
        '4'
    } else if d == 5 {
        '5'
    } else if d == 6 {
        '6'
    } else if d == 7 {
        '7'
    } else if d == 8 {
        '8'
    } else {
        '9'
    }
}

/// The decimal digits of `n`, most significant first.
pub open spec fn enc_num(n: nat) -> Seq<char>
    decreases n,
{
    if n < 10 {
        seq![digit_char(n as int)]
    } else {
        enc_num(n / 10).push(digit_char((n % 10) as int))
    }
}

/// A length-prefixed text field: `<length>:<characters>` and a line break.
pub open spec fn enc_text(s: Seq<char>) -> Seq<char> {
    enc_num(s.len()) + seq![':'] + s + seq!['\n']
}

/// The status line, tag and line break.
pub open spec fn status_line(st: Status) -> Seq<char> {
    match st {
        Status::Todo => seq!['T', 'o', 'd', 'o', '\n'],
        Status::Done => seq!['D', 'o', 'n', 'e', '\n'],
    }
}

/// The subtask identifiers, each preceded by one space.
pub open spec fn enc_ids(l: Seq<u128>) -> Seq<char>
    decreases l.len(),
{
    if l.len() == 0 {
        Seq::empty()
    } else {
        seq![' '] + enc_num(l[0] as nat) + enc_ids(l.drop_first())
    }
}

/// One task record: identifier, name, description, status, subtask count and
/// subtask identifiers, one field per line.
pub open spec fn enc_task(t: TaskModel) -> Seq<char> {
    enc_num(t.id as nat) + seq!['\n'] + enc_text(t.name) + enc_text(t.description) + status_line(
        t.status,
    ) + enc_num(t.subtasks.len()) + enc_ids(t.subtasks) + seq!['\n']
}

/// The task records, in order.
pub open spec fn enc_tasks(s: Seq<TaskModel>) -> Seq<char>
    decreases s.len(),
{
    if s.len() == 0 {
        Seq::empty()
    } else {
        enc_task(s[0]) + enc_tasks(s.drop_first())
    }
}

/// The whole artifact: the task count, then the records.
pub open spec fn enc_store(s: Seq<TaskModel>) -> Seq<char> {
    enc_num(s.len()) + seq!['\n'] + enc_tasks(s)
}

/// Greedily reads digits, accumulating onto `acc`; stops at the first
/// non-digit or at the end.
pub open spec fn sp_digits(s: Seq<char>, acc: nat) -> (nat, Seq<char>)
    decreases s.len(),
{
    if s.len() == 0 || !is_digit(s[0]) {
        (acc, s)
    } else {
        sp_digits(s.drop_first(), acc * 10 + digit_val(s[0]) as nat)
    }
}

/// Parses a decimal number: at least one digit, value within `u128` range.
pub open spec fn sp_num(s: Seq<char>) -> Option<(nat, Seq<char>)> {
    if s.len() == 0 || !is_digit(s[0]) {
        None
    } else {
        let (v, rest) = sp_digits(s, 0);
        if v > u128::MAX {
            None
        } else {
            Some((v, rest))
        }
    }
}

/// Consumes exactly the character `c`.
pub open spec fn sp_char(s: Seq<char>, c: char) -> Option<Seq<char>> {
    if s.len() > 0 && s[0] == c {
        Some(s.drop_first())
    } else {
        None
    }
}

/// Parses a length-prefixed text field as written by [`enc_text`].
pub open spec fn sp_text(s: Seq<char>) -> Option<(Seq<char>, Seq<char>)> {
    match sp_num(s) {
        None => None,
        Some((len, r1)) => match sp_char(r1, ':') {
            None => None,
            Some(r2) => if r2.len() < len + 1 {
                None
            } else if r2[len as int] != '\n' {
                None
            } else {
                Some((r2.take(len as int), r2.skip(len as int + 1)))
            },
        },
    }
}

/// Parses a status line as written by [`status_line`].
pub open spec fn sp_status(s: Seq<char>) -> Option<(Status, Seq<char>)> {
    if s.len() >= 5 && s.take(5) == status_line(Status::Todo) {
        Some((Status::Todo, s.skip(5)))
    } else if s.len() >= 5 && s.take(5) == status_line(Status::Done) {
        Some((Status::Done, s.skip(5)))
    } else {
        None
    }
}

/// Parses exactly `k` space-preceded identifiers.
pub open spec fn sp_ids(s: Seq<char>, k: nat) -> Option<(Seq<u128>, Seq<char>)>
    decreases k,
{
    if k == 0 {
        Some((Seq::empty(), s))
    } else {
        match sp_char(s, ' ') {
            None => None,
            Some(r1) => match sp_num(r1) {
                None => None,
                Some((v, r2)) => match sp_ids(r2, (k - 1) as nat) {
                    None => None,
                    Some((ids, r3)) => Some((seq![v as u128] + ids, r3)),
                },
            },
        }
    }
}

/// Parses one task record as written by [`enc_task`].
pub open spec fn sp_task(s: Seq<char>) -> Option<(TaskModel, Seq<char>)> {
    match sp_num(s) {
        None => None,
        Some((id, r1)) => match sp_char(r1, '\n') {
            None => None,
            Some(r2) => match sp_text(r2) {
                None => None,
                Some((name, r3)) => match sp_text(r3) {
                    None => None,
                    Some((description, r4)) => match sp_status(r4) {
                        None => None,
                        Some((status, r5)) => match sp_num(r5) {
                            None => None,
                            Some((k, r6)) => match sp_ids(r6, k) {
                                None => None,
                                Some((subtasks, r7)) => match sp_char(r7, '\n') {
                                    None => None,
                                    Some(r8) => Some(
                                        (
                                            TaskModel {
                                                id: id as u128,
                                                name,
                                                description,
                                                status,
                                                subtasks,
                                            },
                                            r8,
                                        ),
                                    ),
                                },
                            },
                        },
                    },
                },
            },
        },
    }
}

/// Parses exactly `k` task records.
pub open spec fn sp_tasks(s: Seq<char>, k: nat) -> Option<(Seq<TaskModel>, Seq<char>)>
    decreases k,
{
    if k == 0 {
        Some((Seq::empty(), s))
    } else {
        match sp_task(s) {
            None => None,
            Some((t, r1)) => match sp_tasks(r1, (k - 1) as nat) {
                None => None,
                Some((ts, r2)) => Some((seq![t] + ts, r2)),
            },
        }
    }
}

/// Parses a whole artifact: the count, that many records, nothing trailing,
/// and identifiers pairwise distinct.
pub open spec fn sp_store(s: Seq<char>) -> Option<Seq<TaskModel>> {
    match sp_num(s) {
        None => None,
        Some((n, r1)) => match sp_char(r1, '\n') {
            None => None,
            Some(r2) => match sp_tasks(r2, n) {
                None => None,
                Some((ts, r3)) => if r3.len() != 0 {
                    None
                } else if !wf_ids(ts) {
                    None
                } else {
                    Some(ts)
                },
            },
        },
    }
}

/// Whole-store lengths the text encoding can carry: every count and text
/// length must fit in the number lines of the artifact.
pub open spec fn encodable(s: Seq<TaskModel>) -> bool {
    &&& s.len() <= u128::MAX
    &&& forall|i: int|
        0 <= i < s.len() ==> (#[trigger] s[i]).name.len() <= u128::MAX && s[i].description.len()
            <= u128::MAX && s[i].subtasks.len() <= u128::MAX
}

/// Appending one identifier extends the encoding on the right.
proof fn lemma_enc_ids_snoc(l: Seq<u128>, x: u128)
    ensures
        enc_ids(l.push(x)) == enc_ids(l) + seq![' '] + enc_num(x as nat),
    decreases l.len(),
{
    if l.len() == 0 {
        let one = l.push(x);
        assert(one.drop_first() =~= Seq::<u128>::empty());
        assert(enc_ids(one) == seq![' '] + enc_num(one[0] as nat) + enc_ids(one.drop_first()));
        assert(enc_ids(one.drop_first()) =~= Seq::<char>::empty());
        assert(one[0] == x);
        assert(enc_ids(l) =~= Seq::<char>::empty());
        assert(enc_ids(l.push(x)) =~= enc_ids(l) + seq![' '] + enc_num(x as nat));
    } else {
        assert(l.push(x).drop_first() =~= l.drop_first().push(x));
        lemma_enc_ids_snoc(l.drop_first(), x);
        assert(enc_ids(l.push(x)) =~= enc_ids(l) + seq![' '] + enc_num(x as nat));
    }
}

/// Appending one task record extends the encoding on the right.
proof fn lemma_enc_tasks_snoc(s: Seq<TaskModel>, t: TaskModel)
    ensures
        enc_tasks(s.push(t)) == enc_tasks(s) + enc_task(t),
    decreases s.len(),
{
    if s.len() == 0 {
        let one = s.push(t);
        assert(one.drop_first() =~= Seq::<TaskModel>::empty());
        assert(enc_tasks(one) == enc_task(one[0]) + enc_tasks(one.drop_first()));
        assert(enc_tasks(one.drop_first()) =~= Seq::<char>::empty());
        assert(one[0] == t);
        assert(enc_tasks(s) =~= Seq::<char>::empty());
        assert(enc_tasks(s.push(t)) =~= enc_tasks(s) + enc_task(t));
    } else {
        assert(s.push(t).drop_first() =~= s.drop_first().push(t));
        lemma_enc_tasks_snoc(s.drop_first(), t);
        assert(enc_tasks(s.push(t)) =~= enc_tasks(s) + enc_task(t));
    }
}

/// The power of ten just above `n`: dividing by it shifts past every digit
/// of `n`.
spec fn shift10(n: nat) -> nat
    decreases n,
{
    if n < 10 {
        10
    } else {
        10 * shift10(n / 10)
    }
}

/// Every character the number encoding writes is a digit.
proof fn lemma_enc_num_digits(n: nat)
    ensures
        enc_num(n).len() >= 1,
        forall|i: int| 0 <= i < enc_num(n).len() ==> is_digit(#[trigger] enc_num(n)[i]),
    decreases n,
{
    if n < 10 {
        assert(is_digit(digit_char(n as int)));
    } else {
        lemma_enc_num_digits(n / 10);
        assert(is_digit(digit_char((n % 10) as int)));
        assert forall|i: int| 0 <= i < enc_num(n).len() implies is_digit(
            #[trigger] enc_num(n)[i],
        ) by {
            if i < enc_num(n / 10).len() {
                assert(enc_num(n)[i] == enc_num(n / 10)[i]);
            } else {
                assert(enc_num(n)[i] == digit_char((n % 10) as int));
            }
        }
    }
}

/// Reading the digits of `n` shifts the accumulator past them and adds `n`.
proof fn lemma_sp_digits_enc(n: nat, acc: nat, rest: Seq<char>)
    ensures
        sp_digits(enc_num(n) + rest, acc) == sp_digits(rest, acc * shift10(n) + n),
    decreases n,
{
    if n < 10 {
        let s = enc_num(n) + rest;
        assert(s[0] == digit_char(n as int));
        assert(is_digit(s[0]) && digit_val(digit_char(n as int)) == n);
        assert(s.drop_first() =~= rest);
        assert(sp_digits(s, acc) == sp_digits(rest, acc * 10 + n));
        assert(acc * shift10(n) + n == acc * 10 + n);
    } else {
        let d = digit_char((n % 10) as int);
        let s1 = seq![d] + rest;
        assert(enc_num(n) + rest =~= enc_num(n / 10) + s1);
        lemma_sp_digits_enc(n / 10, acc, s1);
        let acc1 = acc * shift10(n / 10) + n / 10;
        assert(is_digit(s1[0]) && digit_val(d) == n % 10);
        assert(s1.drop_first() =~= rest);
        assert(sp_digits(s1, acc1) == sp_digits(rest, acc1 * 10 + n % 10));
        assert(shift10(n) == 10 * shift10(n / 10));
        assert((acc * shift10(n / 10) + n / 10) * 10 + n % 10 == acc * (10 * shift10(n / 10)) + (
        10 * (n / 10) + n % 10)) by (nonlinear_arith);
        broadcast use vstd::arithmetic::div_mod::lemma_fundamental_div_mod;

        assert(10 * (n as int / 10) + n as int % 10 == n);
        assert(acc1 * 10 + n % 10 == acc * shift10(n) + n);
    }
}

/// At a non-digit, the digit reader stops with what it has.
proof fn lemma_sp_digits_stop(rest: Seq<char>, acc: nat)
    requires
        rest.len() == 0 || !is_digit(rest[0]),
    ensures
        sp_digits(rest, acc) == (acc, rest),
{
}

/// A number encoding followed by a non-digit parses back to the number.
proof fn lemma_sp_num_enc(n: nat, rest: Seq<char>)
    requires
        n <= u128::MAX,
        rest.len() == 0 || !is_digit(rest[0]),
    ensures
        sp_num(enc_num(n) + rest) == Some((n, rest)),
{
    lemma_enc_num_digits(n);
    let s = enc_num(n) + rest;
    assert(s[0] == enc_num(n)[0]);
    assert(is_digit(s[0]));
    lemma_sp_digits_enc(n, 0, rest);
    lemma_sp_digits_stop(rest, (0 * shift10(n) + n) as nat);
    assert(0 * shift10(n) + n == n);
}

/// A text-field encoding followed by anything parses back to the text.
proof fn lemma_sp_text_enc(sq: Seq<char>, rest: Seq<char>)
    requires
        sq.len() <= u128::MAX,
    ensures
        sp_text(enc_text(sq) + rest) == Some((sq, rest)),
{
    let tail = seq![':'] + sq + seq!['\n'] + rest;
    assert(enc_text(sq) + rest =~= enc_num(sq.len()) + tail);
    assert(!is_digit(':'));
    lemma_sp_num_enc(sq.len(), tail);
    assert(tail[0] == ':');
    let r2 = tail.drop_first();
    assert(sp_char(tail, ':') == Some(r2));
    assert(r2 =~= sq + seq!['\n'] + rest);
    assert(r2.len() == sq.len() + 1 + rest.len());
    assert(r2[sq.len() as int] == '\n');
    assert(r2.take(sq.len() as int) =~= sq);
    assert(r2.skip(sq.len() as int + 1) =~= rest);
}

/// A status line followed by anything parses back to the status.
proof fn lemma_sp_status_enc(st: Status, rest: Seq<char>)
    ensures
        sp_status(status_line(st) + rest) == Some((st, rest)),
{
    let s = status_line(st) + rest;
    assert(s.len() >= 5);
    assert(s.take(5) =~= status_line(st));
    assert(s.skip(5) =~= rest);
    match st {
        Status::Todo => {},
        Status::Done => {
            assert(s.take(5) != status_line(Status::Todo)) by {
                assert(s.take(5)[0] == 'D');
                assert(status_line(Status::Todo)[0] == 'T');
            }
        },
    }
}

/// An identifier-list encoding followed by a non-digit parses back to the
/// identifiers.
proof fn lemma_sp_ids_enc(l: Seq<u128>, rest: Seq<char>)
    requires
        rest.len() == 0 || !is_digit(rest[0]),
    ensures
        sp_ids(enc_ids(l) + rest, l.len()) == Some((l, rest)),
    decreases l.len(),
{
    if l.len() == 0 {
        assert(enc_ids(l) + rest =~= rest);
        assert(l =~= Seq::<u128>::empty());
    } else {
        let s = enc_ids(l) + rest;
        let tail_ids = enc_ids(l.drop_first());
        assert(s =~= seq![' '] + (enc_num(l[0] as nat) + (tail_ids + rest)));
        assert(s[0] == ' ');
        assert(!is_digit(' '));
        let r1 = s.drop_first();
        assert(sp_char(s, ' ') == Some(r1));
        assert(r1 =~= enc_num(l[0] as nat) + (tail_ids + rest));
        if l.len() > 1 {
            assert(tail_ids[0] == ' ');
            assert((tail_ids + rest).len() > 0 && !is_digit((tail_ids + rest)[0]));
        } else {
            assert(tail_ids =~= Seq::<char>::empty());
            assert(tail_ids + rest =~= rest);
        }
        assert(l[0] as nat <= u128::MAX);
        lemma_sp_num_enc(l[0] as nat, tail_ids + rest);
        lemma_sp_ids_enc(l.drop_first(), rest);
        assert(seq![l[0]] + l.drop_first() =~= l);
    }
}

/// A task-record encoding followed by anything parses back to the task.
proof fn lemma_sp_task_enc(t: TaskModel, rest: Seq<char>)
    requires
        t.name.len() <= u128::MAX,
        t.description.len() <= u128::MAX,
        t.subtasks.len() <= u128::MAX,
    ensures
        sp_task(enc_task(t) + rest) == Some((t, rest)),
{
    let a_name = enc_text(t.name);
    let a_desc = enc_text(t.description);
    let a_st = status_line(t.status);
    let a_cnt = enc_num(t.subtasks.len());
    let a_ids = enc_ids(t.subtasks);
    let s = enc_task(t) + rest;
    let after_id = seq!['\n'] + (a_name + (a_desc + (a_st + (a_cnt + (a_ids + (seq!['\n']
        + rest))))));
    assert(s =~= enc_num(t.id as nat) + after_id);
    assert(!is_digit('\n'));
    assert(t.id as nat <= u128::MAX);
    lemma_sp_num_enc(t.id as nat, after_id);
    assert(after_id[0] == '\n');
    let r2 = after_id.drop_first();
    assert(sp_char(after_id, '\n') == Some(r2));
    let rest3 = a_desc + (a_st + (a_cnt + (a_ids + (seq!['\n'] + rest))));
    assert(r2 =~= a_name + rest3);
    lemma_sp_text_enc(t.name, rest3);
    let rest4 = a_st + (a_cnt + (a_ids + (seq!['\n'] + rest)));
    assert(rest3 =~= a_desc + rest4);
    lemma_sp_text_enc(t.description, rest4);
    let rest5 = a_cnt + (a_ids + (seq!['\n'] + rest));
    assert(rest4 =~= a_st + rest5);
    lemma_sp_status_enc(t.status, rest5);
    let rest6 = a_ids + (seq!['\n'] + rest);
    assert(rest5 =~= a_cnt + rest6);
    if t.subtasks.len() > 0 {
        assert(a_ids[0] == ' ');
        assert(rest6.len() > 0 && !is_digit(rest6[0]));
    } else {
        assert(a_ids =~= Seq::<char>::empty());
        assert(rest6 =~= seq!['\n'] + rest);
        assert(!is_digit(rest6[0]));
    }
    lemma_sp_num_enc(t.subtasks.len(), rest6);
    lemma_sp_ids_enc(t.subtasks, seq!['\n'] + rest);
    let r7 = seq!['\n'] + rest;
    assert(r7[0] == '\n');
    assert(sp_char(r7, '\n') == Some(r7.drop_first()));
    assert(r7.drop_first() =~= rest);
    assert((t.id as nat) as u128 == t.id);
    assert(TaskModel {
        id: t.id,
        name: t.name,
        description: t.description,
        status: t.status,
        subtasks: t.subtasks,
    } == t);
}

/// A record-list encoding followed by anything parses back to the records.
proof fn lemma_sp_tasks_enc(s: Seq<TaskModel>, rest: Seq<char>)
    requires
        forall|i: int|
            0 <= i < s.len() ==> (#[trigger] s[i]).name.len() <= u128::MAX
                && s[i].description.len() <= u128::MAX && s[i].subtasks.len() <= u128::MAX,
    ensures
        sp_tasks(enc_tasks(s) + rest, s.len()) == Some((s, rest)),
    decreases s.len(),
{
    if s.len() == 0 {
        assert(enc_tasks(s) + rest =~= rest);
        assert(s =~= Seq::<TaskModel>::empty());
    } else {
        assert(enc_tasks(s) + rest =~= enc_task(s[0]) + (enc_tasks(s.drop_first()) + rest));
        lemma_sp_task_enc(s[0], enc_tasks(s.drop_first()) + rest);
        assert(forall|i: int|
            0 <= i < s.drop_first().len() ==> (#[trigger] s.drop_first()[i]).name.len()
                <= u128::MAX && s.drop_first()[i].description.len() <= u128::MAX
                && s.drop_first()[i].subtasks.len() <= u128::MAX);
        lemma_sp_tasks_enc(s.drop_first(), rest);
        assert(seq![s[0]] + s.drop_first() =~= s);
    }
}

/// Law: loading what was saved reproduces the store — the same identifiers,
/// names, descriptions, statuses and subtask lists, in the same order.
pub proof fn lemma_save_load_round_trip(s: Seq<TaskModel>)
    requires
        wf_ids(s),
        encodable(s),
    ensures
        sp_store(enc_store(s)) == Some(s),
{
    let body = seq!['\n'] + enc_tasks(s);
    assert(enc_store(s) =~= enc_num(s.len()) + body);
    assert(!is_digit('\n'));
    lemma_sp_num_enc(s.len(), body);
    assert(body[0] == '\n');
    let r2 = body.drop_first();
    assert(sp_char(body, '\n') == Some(r2));
    assert(r2 =~= enc_tasks(s) + Seq::<char>::empty());
    lemma_sp_tasks_enc(s, Seq::<char>::empty());
    assert(sp_tasks(r2, s.len()) == Some((s, Seq::<char>::empty())));
}

/// Writes the decimal digits of `n`.
fn push_num(out: &mut String, n: u128)
    ensures
        final(out)@ == old(out)@ + enc_num(n as nat),
    decreases n,
{
    if n >= 10 {
        proof {
            assert(n / 10 < n) by (nonlinear_arith)
                requires
                    n >= 10,
            ;
        }
        push_num(out, n / 10);
    }
    let d = (n % 10) as usize;
    let tbl = "0123456789";
    proof {
        reveal_strlit("0123456789");
    }
    let c = tbl.substring_char(d, d + 1);
    out.append(c);
    proof {
        assert(c@ =~= seq![tbl@[d as int]]);
        assert(tbl@[d as int] == digit_char(d as int));
        assert(out@ =~= old(out)@ + enc_num(n as nat));
    }
}

/// Writes a length-prefixed text field and its line break.
fn push_text(out: &mut String, s: &str)
    ensures
        final(out)@ == old(out)@ + enc_text(s@),
{
    let len = s.unicode_len();
    push_num(out, len as u128);
    out.append(":");
    out.append(s);
    out.append("\n");
    proof {
        reveal_strlit(":");
        reveal_strlit("\n");
        assert(":"@ =~= seq![':']);
        assert("\n"@ =~= seq!['\n']);
        assert(out@ =~= old(out)@ + enc_text(s@));
    }
}

/// Writes the status line.
fn push_status(out: &mut String, st: Status)
    ensures
        final(out)@ == old(out)@ + status_line(st),
{
    match st {
        Status::Todo => {
            out.append("Todo\n");
            proof {
                reveal_strlit("Todo\n");
                assert("Todo\n"@ =~= status_line(Status::Todo));
            }
        },
        Status::Done => {
            out.append("Done\n");
            proof {
                reveal_strlit("Done\n");
                assert("Done\n"@ =~= status_line(Status::Done));
            }
        },
    }
}

/// Writes the subtask identifiers, one space before each.
fn push_ids(out: &mut String, l: &Vec<u128>)
    ensures
        final(out)@ == old(out)@ + enc_ids(l@),
{
    let n = l.len();
    for i in 0..n
        invariant
            n == l.len(),
            out@ == old(out)@ + enc_ids(l@.take(i as int)),
    {
        out.append(" ");
        push_num(out, l[i]);
        proof {
            reveal_strlit(" ");
            assert(" "@ =~= seq![' ']);
            lemma_enc_ids_snoc(l@.take(i as int), l@[i as int]);
            assert(l@.take(i + 1) =~= l@.take(i as int).push(l@[i as int]));
            assert(out@ =~= old(out)@ + enc_ids(l@.take(i + 1)));
        }
    }
    proof {
        assert(l@.take(n as int) =~= l@);
    }
}

/// Writes one task record.
fn push_task(out: &mut String, t: &Task)
    ensures
        final(out)@ == old(out)@ + enc_task(t@),
{
    push_num(out, t.id);
    out.append("\n");
    push_text(out, t.name.as_str());
    push_text(out, t.description.as_str());
    push_status(out, t.status);
    push_num(out, t.subtasks.len() as u128);
    push_ids(out, &t.subtasks);
    out.append("\n");
    proof {
        reveal_strlit("\n");
        assert("\n"@ =~= seq!['\n']);
        assert(out@ =~= old(out)@ + enc_task(t@));
    }
}

/// Serializes the whole store to its durable text form: the task count,
/// then one record per task, in insertion order.
pub fn save(t: &Tasks) -> (out: String)
    ensures
        out@ == enc_store(t@),
{
    let list = t.list();
    let mut out = String::new();
    let n = list.len();
    push_num(&mut out, n as u128);
    out.append("\n");
    proof {
        reveal_strlit("\n");
        assert("\n"@ =~= seq!['\n']);
        assert(views_of(list@).take(0) =~= Seq::<TaskModel>::empty());
        assert(out@ =~= enc_num(t@.len()) + seq!['\n'] + enc_tasks(views_of(list@).take(0)));
    }
    for i in 0..n
        invariant
            n == list.len(),
            views_of(list@) == t@,
            out@ == enc_num(t@.len()) + seq!['\n'] + enc_tasks(views_of(list@).take(i as int)),
    {
        push_task(&mut out, &list[i]);
        proof {
            lemma_enc_tasks_snoc(views_of(list@).take(i as int), list@[i as int]@);
            assert(views_of(list@).take(i + 1) =~= views_of(list@).take(i as int).push(
                list@[i as int]@,
            ));
            assert(out@ =~= enc_num(t@.len()) + seq!['\n'] + enc_tasks(
                views_of(list@).take(i + 1),
            ));
        }
    }
    proof {
        assert(views_of(list@).take(n as int) =~= views_of(list@));
    }
    out
}

/// The running value of the digit reader never drops below its accumulator.
proof fn lemma_sp_digits_ge(s: Seq<char>, acc: nat)
    ensures
        sp_digits(s, acc).0 >= acc,
    decreases s.len(),
{
    if s.len() == 0 || !is_digit(s[0]) {
    } else {
        lemma_sp_digits_ge(s.drop_first(), acc * 10 + digit_val(s[0]) as nat);
    }
}

/// Reads a decimal number at `pos`: at least one digit, value within `u128`.
fn p_num(s: &str, pos: usize) -> (r: Option<(u128, usize)>)
    requires
        pos <= s@.len(),
    ensures
        match r {
            None => sp_num(s@.skip(pos as int)) is None,
            Some((v, pos2)) => sp_num(s@.skip(pos as int)) == Some(
                (v as nat, s@.skip(pos2 as int)),
            ) && pos <= pos2 <= s@.len(),
        },
{
    let n = s.unicode_len();
    if pos >= n {
        proof {
            assert(s@.skip(pos as int).len() == 0);
        }
        return None;
    }
    let c0 = s.get_char(pos);
    if (c0 as u32) < 48 || (c0 as u32) > 57 {
        proof {
            assert(s@.skip(pos as int)[0] == s@[pos as int]);
            assert(!is_digit(s@[pos as int]));
        }
        return None;
    }
    let mut i = pos;
    let mut acc: u128 = 0;
    loop
        invariant
            pos <= i <= n,
            pos < n,
            n == s@.len(),
            is_digit(s@.skip(pos as int)[0]),
            sp_digits(s@.skip(pos as int), 0) == sp_digits(s@.skip(i as int), acc as nat),
        decreases n - i,
    {
        if i == n {
            proof {
                assert(s@.skip(i as int).len() == 0);
                assert(sp_digits(s@.skip(i as int), acc as nat) == (acc as nat, s@.skip(i as int)));
            }
            return Some((acc, i));
        }
        let c = s.get_char(i);
        let u = c as u32;
        if u < 48 || u > 57 {
            proof {
                assert(s@.skip(i as int)[0] == s@[i as int]);
                assert(!is_digit(s@[i as int]));
                assert(sp_digits(s@.skip(i as int), acc as nat) == (acc as nat, s@.skip(i as int)));
            }
            return Some((acc, i));
        }
        let d = (u - 48) as u128;
        proof {
            assert(s@.skip(i as int)[0] == s@[i as int]);
            assert(is_digit(s@[i as int]));
            assert(digit_val(s@[i as int]) == d);
            assert(s@.skip(i as int).drop_first() =~= s@.skip(i as int + 1));
        }
        if acc > (u128::MAX - d) / 10 {
            proof {
                assert(acc * 10 + d > u128::MAX) by (nonlinear_arith)
                    requires
                        acc > (u128::MAX - d) / 10,
                        d <= 9,
                        acc <= u128::MAX,
                ;
                lemma_sp_digits_ge(s@.skip(i as int + 1), (acc * 10 + d) as nat);
                assert(sp_digits(s@.skip(pos as int), 0).0 > u128::MAX);
            }
            return None;
        }
        acc = acc * 10 + d;
        i = i + 1;
    }
}

/// Consumes exactly the character `c` at `pos`.
fn p_char(s: &str, pos: usize, c: char) -> (r: Option<usize>)
    requires
        pos <= s@.len(),
    ensures
        match r {
            None => sp_char(s@.skip(pos as int), c) is None,
            Some(pos2) => sp_char(s@.skip(pos as int), c) == Some(s@.skip(pos2 as int)) && pos
                < pos2 <= s@.len(),
        },
{
    let n = s.unicode_len();
    if pos < n {
        let ch = s.get_char(pos);
        if ch == c {
            proof {
                assert(s@.skip(pos as int)[0] == c);
                assert(s@.skip(pos as int).drop_first() =~= s@.skip(pos as int + 1));
            }
            return Some(pos + 1);
        }
        proof {
            assert(s@.skip(pos as int)[0] != c);
        }
        return None;
    }
    proof {
        assert(s@.skip(pos as int).len() == 0);
    }
    None
}

/// Reads a length-prefixed text field at `pos`.
fn p_text(s: &str, pos: usize) -> (r: Option<(String, usize)>)
    requires
        pos <= s@.len(),
    ensures
        match r {
            None => sp_text(s@.skip(pos as int)) is None,
            Some((v, pos2)) => sp_text(s@.skip(pos as int)) == Some((v@, s@.skip(pos2 as int)))
                && pos <= pos2 <= s@.len(),
        },
{
    let n = s.unicode_len();
    match p_num(s, pos) {
        None => None,
        Some((len128, p1)) => match p_char(s, p1, ':') {
            None => None,
            Some(p2) => {
                let ghost r2 = s@.skip(p2 as int);
                let rem = n - p2;
                if rem == 0 || len128 > (rem as u128) - 1 {
                    proof {
                        assert(r2.len() == n - p2);
                        assert(r2.len() < len128 as nat + 1);
                    }
                    return None;
                }
                let len = len128 as usize;
                let term = s.get_char(p2 + len);
                proof {
                    assert(r2[len as int] == s@[p2 + len as int]);
                }
                if !(term == '\n') {
                    return None;
                }
                let sub = s.substring_char(p2, p2 + len);
                let v = String::from_str(sub);
                proof {
                    assert(r2.take(len as int) =~= s@.subrange(p2 as int, p2 + len as int));
                    assert(r2.skip(len as int + 1) =~= s@.skip(p2 + len as int + 1));
                }
                Some((v, p2 + len + 1))
            },
        },
    }
}

/// Reads a status line at `pos`.
fn p_status(s: &str, pos: usize) -> (r: Option<(Status, usize)>)
    requires
        pos <= s@.len(),
    ensures
        match r {
            None => sp_status(s@.skip(pos as int)) is None,
            Some((st, pos2)) => sp_status(s@.skip(pos as int)) == Some(
                (st, s@.skip(pos2 as int)),
            ) && pos <= pos2 <= s@.len(),
        },
{
    let n = s.unicode_len();
    let ghost sk = s@.skip(pos as int);
    if n - pos >= 5 {
        let c0 = s.get_char(pos);
        let c1 = s.get_char(pos + 1);
        let c2 = s.get_char(pos + 2);
        let c3 = s.get_char(pos + 3);
        let c4 = s.get_char(pos + 4);
        proof {
            assert(sk.len() >= 5);
            assert(sk[0] == s@[pos as int] && sk[1] == s@[pos as int + 1] && sk[2] == s@[pos as int
                + 2] && sk[3] == s@[pos as int + 3] && sk[4] == s@[pos as int + 4]);
        }
        if c0 == 'T' && c1 == 'o' && c2 == 'd' && c3 == 'o' && c4 == '\n' {
            proof {
                assert(sk.take(5) =~= status_line(Status::Todo));
                assert(sk.skip(5) =~= s@.skip(pos as int + 5));
            }
            return Some((Status::Todo, pos + 5));
        }
        if c0 == 'D' && c1 == 'o' && c2 == 'n' && c3 == 'e' && c4 == '\n' {
            proof {
                assert(sk.take(5) =~= status_line(Status::Done));
                assert(sk.take(5) != status_line(Status::Todo)) by {
                    assert(sk.take(5)[0] == 'D');
                }
                assert(sk.skip(5) =~= s@.skip(pos as int + 5));
            }
            return Some((Status::Done, pos + 5));
        }
        proof {
            assert(sk.take(5) != status_line(Status::Todo)) by {
                if sk.take(5) == status_line(Status::Todo) {
                    assert(sk.take(5)[0] == 'T' && sk.take(5)[1] == 'o' && sk.take(5)[2] == 'd'
                        && sk.take(5)[3] == 'o' && sk.take(5)[4] == '\n');
                }
            }
            assert(sk.take(5) != status_line(Status::Done)) by {
                if sk.take(5) == status_line(Status::Done) {
                    assert(sk.take(5)[0] == 'D' && sk.take(5)[1] == 'o' && sk.take(5)[2] == 'n'
                        && sk.take(5)[3] == 'e' && sk.take(5)[4] == '\n');
                }
            }
        }
        return None;
    }
    proof {
        assert(sk.len() < 5);
    }
    None
}

/// Reads exactly `k` space-preceded identifiers at `pos`.
fn p_ids(s: &str, pos: usize, k: u128) -> (r: Option<(Vec<u128>, usize)>)
    requires
        pos <= s@.len(),
    ensures
        match r {
            None => sp_ids(s@.skip(pos as int), k as nat) is None,
            Some((v, pos2)) => sp_ids(s@.skip(pos as int), k as nat) == Some(
                (v@, s@.skip(pos2 as int)),
            ) && pos <= pos2 <= s@.len(),
        },
    decreases k,
{
    if k == 0 {
        return Some((Vec::new(), pos));
    }
    match p_char(s, pos, ' ') {
        None => None,
        Some(p1) => match p_num(s, p1) {
            None => None,
            Some((v, p2)) => match p_ids(s, p2, k - 1) {
                None => None,
                Some((ids, p3)) => {
                    let mut ids = ids;
                    ids.insert(0, v);
                    proof {
                        assert(ids@ =~= seq![v] + ids@.drop_first());
                    }
                    Some((ids, p3))
                },
            },
        },
    }
}

/// Reads one task record at `pos`.
fn p_task(s: &str, pos: usize) -> (r: Option<(Task, usize)>)
    requires
        pos <= s@.len(),
    ensures
        match r {
            None => sp_task(s@.skip(pos as int)) is None,
            Some((t, pos2)) => sp_task(s@.skip(pos as int)) == Some((t@, s@.skip(pos2 as int)))
                && pos <= pos2 <= s@.len(),
        },
{
    match p_num(s, pos) {
        None => None,
        Some((id, p1)) => match p_char(s, p1, '\n') {
            None => None,
            Some(p2) => match p_text(s, p2) {
                None => None,
                Some((name, p3)) => match p_text(s, p3) {
                    None => None,
                    Some((description, p4)) => match p_status(s, p4) {
                        None => None,
                        Some((status, p5)) => match p_num(s, p5) {
                            None => None,
                            Some((k, p6)) => match p_ids(s, p6, k) {
                                None => None,
                                Some((subtasks, p7)) => match p_char(s, p7, '\n') {
                                    None => None,
                                    Some(p8) => Some(
                                        (Task { id, name, description, status, subtasks }, p8),
                                    ),
                                },
                            },
                        },
                    },
                },
            },
        },
    }
}

/// Reads exactly `k` task records at `pos`.
fn p_tasks(s: &str, pos: usize, k: u128) -> (r: Option<(Vec<Task>, usize)>)
    requires
        pos <= s@.len(),
    ensures
        match r {
            None => sp_tasks(s@.skip(pos as int), k as nat) is None,
            Some((v, pos2)) => sp_tasks(s@.skip(pos as int), k as nat) == Some(
                (views_of(v@), s@.skip(pos2 as int)),
            ) && pos <= pos2 <= s@.len(),
        },
    decreases k,
{
    if k == 0 {
        proof {
            assert(views_of(Seq::<Task>::empty()) =~= Seq::<TaskModel>::empty());
        }
        return Some((Vec::new(), pos));
    }
    match p_task(s, pos) {
        None => None,
        Some((t, p1)) => match p_tasks(s, p1, k - 1) {
            None => None,
            Some((ts, p2)) => {
                let mut ts = ts;
                let ghost tail = ts@;
                ts.insert(0, t);
                proof {
                    assert(ts@ =~= seq![t] + tail);
                    assert(views_of(ts@) =~= seq![t@] + views_of(tail));
                }
                Some((ts, p2))
            },
        },
    }
}

/// Parses a whole artifact. Anything that is not exactly an encoded store —
/// a bad number, a missing field, trailing text, a duplicated identifier —
/// is reported as malformed, never a fault.
pub fn parse_store(s: &str) -> (r: Result<Tasks, TaskError>)
    ensures
        match r {
            Ok(t) => sp_store(s@) == Some(t@) && t.wf(),
            Err(e) => sp_store(s@) is None && e == TaskError::MalformedPersistedState,
        },
{
    let n = s.unicode_len();
    proof {
        assert(s@.skip(0) =~= s@);
    }
    match p_num(s, 0) {
        None => Err(TaskError::MalformedPersistedState),
        Some((cnt, p1)) => match p_char(s, p1, '\n') {
            None => Err(TaskError::MalformedPersistedState),
            Some(p2) => match p_tasks(s, p2, cnt) {
                None => Err(TaskError::MalformedPersistedState),
                Some((v, p3)) => {
                    if p3 != n {
                        proof {
                            assert(s@.skip(p3 as int).len() != 0);
                        }
                        Err(TaskError::MalformedPersistedState)
                    } else if !ids_unique(&v) {
                        Err(TaskError::MalformedPersistedState)
                    } else {
                        proof {
                            assert(s@.skip(p3 as int).len() == 0);
                        }
                        Ok(Tasks::from_list(v))
                    }
                },
            },
        },
    }
}

/// Produces the store a run begins with: an empty store when no artifact
/// exists yet, the parsed store when the artifact parses, and an empty store
/// again — never a fault — when it does not.
pub fn load(content: Option<&str>) -> (r: Tasks)
    ensures
        r.wf(),
        match content {
            None => r@ =~= Seq::<TaskModel>::empty(),
            Some(c) => match sp_store(c@) {
                Some(s) => r@ == s,
                None => r@ =~= Seq::<TaskModel>::empty(),
            },
        },
{
    match content {
        None => Tasks::new(),
        Some(c) => match parse_store(c) {
            Ok(t) => t,
            Err(_) => Tasks::new(),
        },
    }
}

} // verus!
