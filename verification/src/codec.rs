//! The adjacency text format.
//!
//! Output: one line per entry, `"<parent> <child> <child>..."`, parents
//! ascending (the stored entry order), children separated by single
//! spaces, no trailing whitespace, each line ended by a newline.
//!
//! Input: each line is a sequence of decimal numbers delimited by
//! spaces, commas, tabs or carriage returns; a token that is not a plain
//! run of digits fitting the machine word is silently skipped (lenient
//! parse); lines that yield no numbers become empty rows, which tree
//! construction ignores.

use vstd::prelude::*;

use crate::tree::{
    adj_ok, build_adj, lemma_wf_sorted, row_view, sorted_keys, upsert, Tree,
};

verus! {

pub open spec fn is_digit(b: u8) -> bool {
    48 <= b <= 57
}

/// Separators inside a line: space, comma, tab, carriage return.
pub open spec fn is_sep(b: u8) -> bool {
    b == 32 || b == 44 || b == 9 || b == 13
}

/// `n` written in decimal digit bytes, most significant first.
pub open spec fn dec_bytes(n: nat) -> Seq<u8>
    decreases n,
{
    if n < 10 {
        seq![(48 + n) as u8]
    } else {
        dec_bytes(n / 10).push((48 + n % 10) as u8)
    }
}

/// The children of a line, each preceded by a single space.
pub open spec fn child_bytes(cs: Seq<usize>) -> Seq<u8>
    decreases cs.len(),
{
    if cs.len() == 0 {
        Seq::empty()
    } else {
        child_bytes(cs.drop_last()) + seq![32u8] + dec_bytes(cs.last() as nat)
    }
}

/// One output line: parent, children, newline.
pub open spec fn line_bytes(e: (usize, Seq<usize>)) -> Seq<u8> {
    dec_bytes(e.0 as nat) + child_bytes(e.1) + seq![10u8]
}

/// The whole output: the entries' lines in stored (ascending) order.
pub open spec fn render_spec(adj: Seq<(usize, Seq<usize>)>) -> Seq<u8>
    decreases adj.len(),
{
    if adj.len() == 0 {
        Seq::empty()
    } else {
        render_spec(adj.drop_last()) + line_bytes(adj.last())
    }
}

/// Index of the first separator byte, or the length if there is none.
pub open spec fn first_sep(s: Seq<u8>) -> nat
    decreases s.len(),
{
    if s.len() == 0 {
        0
    } else if is_sep(s[0]) {
        0
    } else {
        1 + first_sep(s.drop_first())
    }
}

/// Index of the first newline byte, or the length if there is none.
pub open spec fn first_nl(s: Seq<u8>) -> nat
    decreases s.len(),
{
    if s.len() == 0 {
        0
    } else if s[0] == 10 {
        0
    } else {
        1 + first_nl(s.drop_first())
    }
}

/// The value of a run of digit bytes, most significant first.
pub open spec fn digits_val(s: Seq<u8>) -> int
    decreases s.len(),
{
    if s.len() == 0 {
        0
    } else {
        digits_val(s.drop_last()) * 10 + (s.last() - 48)
    }
}

/// The number a token denotes: defined exactly for a non-empty all-digit
/// run whose value fits the machine word; anything else is skipped.
pub open spec fn tok_value(s: Seq<u8>) -> Option<usize> {
    if s.len() > 0 && (forall|q: int| 0 <= q < s.len() ==> is_digit(#[trigger] s[q]))
        && digits_val(s) <= usize::MAX {
        Some(digits_val(s) as usize)
    } else {
        None
    }
}

/// The numbers found in one line, invalid tokens skipped.
pub open spec fn parse_line(s: Seq<u8>) -> Seq<usize>
    decreases s.len(),
{
    if s.len() == 0 {
        Seq::empty()
    } else {
        let i = first_sep(s);
        let tok = s.take(i as int);
        let rest = if i < s.len() {
            s.skip(i + 1int)
        } else {
            Seq::empty()
        };
        (match tok_value(tok) {
            Some(v) => seq![v],
            None => Seq::empty(),
        }) + parse_line(rest)
    }
}

/// The rows found in the input, one per line.
pub open spec fn parse_rows(s: Seq<u8>) -> Seq<Seq<usize>>
    decreases s.len(),
{
    if s.len() == 0 {
        Seq::empty()
    } else {
        let i = first_nl(s);
        let line = s.take(i as int);
        let rest = if i < s.len() {
            s.skip(i + 1int)
        } else {
            Seq::empty()
        };
        seq![parse_line(line)] + parse_rows(rest)
    }
}

/// `first_sep` is the position of the first separator, located from a
/// separator-free prefix.
proof fn lemma_first_sep_at(s: Seq<u8>, j: int)
    requires
        0 <= j <= s.len(),
        forall|q: int| 0 <= q < j ==> !is_sep(#[trigger] s[q]),
        j == s.len() || is_sep(s[j]),
    ensures
        first_sep(s) == j,
    decreases j,
{
    if s.len() > 0 && !is_sep(s[0]) {
        let d = s.drop_first();
        assert forall|q: int| 0 <= q < j - 1 implies !is_sep(#[trigger] d[q]) by {
            assert(d[q] == s[q + 1]);
        }
        if j - 1 < d.len() {
            assert(d[j - 1] == s[j]);
        }
        lemma_first_sep_at(d, j - 1);
    }
}

/// `first_nl` is the position of the first newline, located from a
/// newline-free prefix.
proof fn lemma_first_nl_at(s: Seq<u8>, j: int)
    requires
        0 <= j <= s.len(),
        forall|q: int| 0 <= q < j ==> #[trigger] s[q] != 10,
        j == s.len() || s[j] == 10,
    ensures
        first_nl(s) == j,
    decreases j,
{
    if s.len() > 0 && s[0] != 10 {
        let d = s.drop_first();
        assert forall|q: int| 0 <= q < j - 1 implies #[trigger] d[q] != 10 by {
            assert(d[q] == s[q + 1]);
        }
        if j - 1 < d.len() {
            assert(d[j - 1] == s[j]);
        }
        lemma_first_nl_at(d, j - 1);
    }
}

/// The value of an all-digit run is non-negative.
proof fn lemma_digits_val_nonneg(s: Seq<u8>)
    requires
        forall|q: int| 0 <= q < s.len() ==> is_digit(#[trigger] s[q]),
    ensures
        digits_val(s) >= 0,
    decreases s.len(),
{
    if s.len() > 0 {
        let d = s.drop_last();
        assert forall|q: int| 0 <= q < d.len() implies is_digit(#[trigger] d[q]) by {
            assert(d[q] == s[q]);
        }
        lemma_digits_val_nonneg(d);
    }
}

/// Extending an all-digit run never shrinks its value.
proof fn lemma_digits_val_mono(s: Seq<u8>, a: int)
    requires
        0 <= a <= s.len(),
        forall|q: int| 0 <= q < s.len() ==> is_digit(#[trigger] s[q]),
    ensures
        digits_val(s.take(a)) <= digits_val(s),
    decreases s.len() - a,
{
    if a < s.len() {
        assert(s.take(a + 1).drop_last() =~= s.take(a));
        assert(s.take(a + 1).last() == s[a]);
        assert forall|q: int| 0 <= q < s.take(a).len() implies is_digit(
            #[trigger] s.take(a)[q],
        ) by {
            assert(s.take(a)[q] == s[q]);
        }
        lemma_digits_val_nonneg(s.take(a));
        lemma_digits_val_mono(s, a + 1);
    } else {
        assert(s.take(a) =~= s);
    }
}

/// The numbers in one line held as `line@.subrange(lo, hi)`.
fn parse_line_exec(line: &Vec<u8>) -> (r: Vec<usize>)
    ensures
        r@ == parse_line(line@),
{
    let mut r: Vec<usize> = Vec::new();
    let mut pos: usize = 0;
    proof {
        assert(r@ + parse_line(line@.skip(0int)) =~= parse_line(line@.skip(0int)));
        assert(line@.skip(0int) =~= line@);
    }
    while pos < line.len()
        invariant
            pos <= line@.len(),
            parse_line(line@) == r@ + parse_line(line@.skip(pos as int)),
        decreases line@.len() - pos,
    {
        let ghost s = line@.skip(pos as int);
        let mut j: usize = pos;
        while j < line.len() && !(line[j] == 32 || line[j] == 44 || line[j] == 9 || line[j] == 13)
            invariant
                pos <= j <= line@.len(),
                forall|q: int| pos <= q < j ==> !is_sep(#[trigger] line@[q]),
            decreases line@.len() - j,
        {
            j += 1;
        }
        proof {
            assert forall|q: int| 0 <= q < j - pos implies !is_sep(#[trigger] s[q]) by {
                assert(s[q] == line@[q + pos]);
            }
            if j < line.len() {
                assert(s[j - pos] == line@[j as int]);
            }
            lemma_first_sep_at(s, j - pos);
            assert(s.take(j - pos) =~= line@.subrange(pos as int, j as int));
        }
        let ghost tok = line@.subrange(pos as int, j as int);
        // parse the token: a non-empty run of digits that fits the word
        let mut val: usize = 0;
        let mut ok: bool = j > pos;
        let mut k: usize = pos;
        proof {
            assert(tok.take(0int) =~= Seq::<u8>::empty());
        }
        while k < j && ok
            invariant
                pos <= k <= j <= line@.len(),
                tok == line@.subrange(pos as int, j as int),
                ok ==> pos < j,
                ok ==> forall|q: int| pos <= q < k ==> is_digit(#[trigger] line@[q]),
                ok ==> val == digits_val(tok.take(k - pos)),
                !ok ==> tok_value(tok) is None,
            decreases j - k,
        {
            let b = line[k];
            proof {
                assert(tok.take(k + 1 - pos).drop_last() =~= tok.take(k - pos));
                assert(tok.take(k + 1 - pos).last() == line@[k as int]);
            }
            if b < 48 || b > 57 {
                proof {
                    assert(tok[k - pos] == line@[k as int]);
                    assert(!is_digit(tok[k - pos]));
                }
                ok = false;
            } else {
                let d = (b - 48) as usize;
                let ten = val.checked_mul(10);
                match ten {
                    Some(t) => {
                        let sum = t.checked_add(d);
                        match sum {
                            Some(v2) => {
                                val = v2;
                            },
                            None => {
                                proof {
                                    assert(digits_val(tok.take(k + 1 - pos)) > usize::MAX);
                                    if forall|q: int|
                                        0 <= q < tok.len() ==> is_digit(#[trigger] tok[q]) {
                                        lemma_digits_val_mono(tok, k + 1 - pos);
                                    }
                                }
                                ok = false;
                            },
                        }
                    },
                    None => {
                        proof {
                            assert(digits_val(tok.take(k + 1 - pos)) > usize::MAX);
                            if forall|q: int| 0 <= q < tok.len() ==> is_digit(#[trigger] tok[q]) {
                                lemma_digits_val_mono(tok, k + 1 - pos);
                            }
                        }
                        ok = false;
                    },
                }
            }
            k += 1;
        }
        if ok {
            proof {
                assert(tok.take(j - pos) =~= tok);
                assert forall|q: int| 0 <= q < tok.len() implies is_digit(#[trigger] tok[q]) by {
                    assert(tok[q] == line@[q + pos]);
                }
                assert(tok_value(tok) == Some(val));
            }
            r.push(val);
        }
        proof {
            let i = first_sep(s);
            assert(i == j - pos);
            assert(s.take(i as int) == tok);
            if j < line.len() {
                assert(s.skip(i + 1int) =~= line@.skip(j + 1int));
            }
            assert(parse_line(s) == (match tok_value(tok) {
                Some(v) => seq![v],
                None => Seq::<usize>::empty(),
            }) + parse_line(
                if j < line.len() {
                    line@.skip(j + 1int)
                } else {
                    Seq::<u8>::empty()
                },
            ));
            if j >= line.len() {
                assert(line@.skip(line@.len() as int) =~= Seq::<u8>::empty());
            }
        }
        pos = if j < line.len() {
            j + 1
        } else {
            line.len()
        };
    }
    proof {
        assert(line@.skip(line@.len() as int) =~= Seq::<u8>::empty());
        assert(r@ + parse_line(Seq::<u8>::empty()) =~= r@);
    }
    r
}

/// The rows found in raw adjacency text: one row per line, each the
/// numbers of that line in order, invalid tokens skipped.
pub fn parse_adjacency(input: &Vec<u8>) -> (r: Vec<Vec<usize>>)
    ensures
        row_view(r@) == parse_rows(input@),
{
    let mut r: Vec<Vec<usize>> = Vec::new();
    let mut pos: usize = 0;
    proof {
        assert(input@.skip(0int) =~= input@);
        assert(row_view(r@) + parse_rows(input@) =~= parse_rows(input@));
    }
    while pos < input.len()
        invariant
            pos <= input@.len(),
            parse_rows(input@) == row_view(r@) + parse_rows(input@.skip(pos as int)),
        decreases input@.len() - pos,
    {
        let ghost s = input@.skip(pos as int);
        let mut j: usize = pos;
        while j < input.len() && input[j] != 10
            invariant
                pos <= j <= input@.len(),
                forall|q: int| pos <= q < j ==> #[trigger] input@[q] != 10,
            decreases input@.len() - j,
        {
            j += 1;
        }
        proof {
            assert forall|q: int| 0 <= q < j - pos implies #[trigger] s[q] != 10 by {
                assert(s[q] == input@[q + pos]);
            }
            if j < input.len() {
                assert(s[j - pos] == input@[j as int]);
            }
            lemma_first_nl_at(s, j - pos);
        }
        let mut line: Vec<u8> = Vec::new();
        let mut k: usize = pos;
        while k < j
            invariant
                pos <= k <= j <= input@.len(),
                line@ == input@.subrange(pos as int, k as int),
            decreases j - k,
        {
            line.push(input[k]);
            proof {
                assert(line@ =~= input@.subrange(pos as int, k + 1int));
            }
            k += 1;
        }
        let row = parse_line_exec(&line);
        r.push(row);
        proof {
            let i = first_nl(s);
            assert(i == j - pos);
            assert(s.take(i as int) =~= line@);
            if j < input.len() {
                assert(s.skip(i + 1int) =~= input@.skip(j + 1int));
            } else {
                assert(input@.skip(input@.len() as int) =~= Seq::<u8>::empty());
            }
            assert(row_view(r@) =~= row_view(r@.drop_last()).push(row@));
            assert(row_view(r@) + parse_rows(
                if j < input.len() {
                    input@.skip(j + 1int)
                } else {
                    Seq::<u8>::empty()
                },
            ) =~= row_view(r@.drop_last()) + (seq![parse_line(line@)] + parse_rows(
                if j < input.len() {
                    input@.skip(j + 1int)
                } else {
                    Seq::<u8>::empty()
                },
            )));
        }
        pos = if j < input.len() {
            j + 1
        } else {
            input.len()
        };
    }
    proof {
        assert(input@.skip(input@.len() as int) =~= Seq::<u8>::empty());
        assert(row_view(r@) + parse_rows(Seq::<u8>::empty()) =~= row_view(r@));
    }
    r
}

/// Append the decimal rendering of `n`.
fn push_dec(out: &mut Vec<u8>, n: usize)
    ensures
        final (out)@ == old(out)@ + dec_bytes(n as nat),
    decreases n,
{
    if n >= 10 {
        push_dec(out, n / 10);
    }
    out.push((48 + (n % 10) as u8));
    proof {
        if n < 10 {
            assert(out@ =~= old(out)@ + dec_bytes(n as nat));
        } else {
            assert(out@ =~= old(out)@ + dec_bytes((n / 10) as nat).push((48 + n % 10) as u8));
        }
    }
}

impl Tree {
    /// The tree in the adjacency output format, ready to be written out.
    pub fn render_adjacency(&self) -> (r: Vec<u8>)
        ensures
            r@ == render_spec(self.adj()),
    {
        let entries = self.nodes();
        let mut out: Vec<u8> = Vec::new();
        let mut i: usize = 0;
        proof {
            assert(self.adj().take(0int) =~= Seq::<(usize, Seq<usize>)>::empty());
        }
        while i < entries.len()
            invariant
                i <= entries@.len(),
                entries@.len() == self.adj().len(),
                forall|q: int|
                    0 <= q < entries@.len() ==> (#[trigger] entries@[q]).0 == self.adj()[q].0
                        && entries@[q].1@ == self.adj()[q].1,
                out@ == render_spec(self.adj().take(i as int)),
            decreases entries@.len() - i,
        {
            push_dec(&mut out, entries[i].0);
            let mut k: usize = 0;
            while k < entries[i].1.len()
                invariant
                    i < entries@.len(),
                    k <= entries@[i as int].1@.len(),
                    entries@[i as int].1@ == self.adj()[i as int].1,
                    out@ == render_spec(self.adj().take(i as int)) + dec_bytes(
                        self.adj()[i as int].0 as nat,
                    ) + child_bytes(self.adj()[i as int].1.take(k as int)),
                decreases entries@[i as int].1@.len() - k,
            {
                out.push(32u8);
                push_dec(&mut out, entries[i].1[k]);
                proof {
                    let cs = self.adj()[i as int].1;
                    assert(cs.take(k + 1int).drop_last() =~= cs.take(k as int));
                    assert(cs.take(k + 1int).last() == cs[k as int]);
                    assert(out@ =~= render_spec(self.adj().take(i as int)) + dec_bytes(
                        self.adj()[i as int].0 as nat,
                    ) + (child_bytes(cs.take(k as int)) + seq![32u8] + dec_bytes(
                        cs[k as int] as nat,
                    )));
                }
                k += 1;
            }
            out.push(10u8);
            proof {
                let cs = self.adj()[i as int].1;
                assert(cs.take(cs.len() as int) =~= cs);
                assert(self.adj().take(i + 1int).drop_last() =~= self.adj().take(i as int));
                assert(self.adj().take(i + 1int).last() == self.adj()[i as int]);
                assert(out@ =~= render_spec(self.adj().take(i as int)) + line_bytes(
                    self.adj()[i as int],
                ));
            }
            i += 1;
        }
        proof {
            assert(self.adj().take(self.adj().len() as int) =~= self.adj());
        }
        out
    }
}

/// The decimal rendering is a non-empty run of digit bytes.
proof fn lemma_dec_bytes_digits(n: nat)
    ensures
        dec_bytes(n).len() >= 1,
        forall|q: int| 0 <= q < dec_bytes(n).len() ==> is_digit(#[trigger] dec_bytes(n)[q]),
    decreases n,
{
    if n >= 10 {
        lemma_dec_bytes_digits(n / 10);
        assert forall|q: int| 0 <= q < dec_bytes(n).len() implies is_digit(
            #[trigger] dec_bytes(n)[q],
        ) by {
            if q < dec_bytes(n / 10).len() {
                assert(dec_bytes(n)[q] == dec_bytes(n / 10)[q]);
            }
        }
    }
}

/// Reading the decimal rendering back gives the number.
proof fn lemma_dec_bytes_val(n: nat)
    ensures
        digits_val(dec_bytes(n)) == n,
    decreases n,
{
    if n < 10 {
        assert(dec_bytes(n) == seq![(48 + n) as u8]);
        assert(dec_bytes(n).drop_last() =~= Seq::<u8>::empty());
        assert(digits_val(Seq::<u8>::empty()) == 0);
        assert(dec_bytes(n).last() == (48 + n) as u8);
        assert((48 + n) as u8 == 48 + n);
        assert(digits_val(dec_bytes(n)) == 0 * 10 + ((48 + n) as u8 - 48));
    } else {
        lemma_dec_bytes_val(n / 10);
        assert(dec_bytes(n).drop_last() =~= dec_bytes(n / 10));
        assert(dec_bytes(n).last() == (48 + n % 10) as u8);
        assert((48 + n % 10) as u8 == 48 + n % 10);
        assert(digits_val(dec_bytes(n)) == digits_val(dec_bytes(n / 10)) * 10 + (n % 10));
        assert(n / 10 * 10 + n % 10 == n);
    }
}

/// A rendered number is one valid token.
proof fn lemma_tok_round(n: nat)
    requires
        n <= usize::MAX,
    ensures
        tok_value(dec_bytes(n)) == Some(n as usize),
{
    lemma_dec_bytes_digits(n);
    lemma_dec_bytes_val(n);
}

/// Front decomposition of the children bytes: a space, the first child,
/// then the rest.
proof fn lemma_child_bytes_front(cs: Seq<usize>)
    requires
        cs.len() > 0,
    ensures
        child_bytes(cs) =~= seq![32u8] + dec_bytes(cs[0] as nat) + child_bytes(cs.drop_first()),
    decreases cs.len(),
{
    if cs.len() == 1 {
        assert(cs.drop_last() =~= Seq::<usize>::empty());
        assert(cs.drop_first() =~= Seq::<usize>::empty());
        assert(cs.last() == cs[0]);
    } else {
        lemma_child_bytes_front(cs.drop_last());
        assert(cs.drop_last()[0] == cs[0]);
        assert(cs.drop_first().drop_last() =~= cs.drop_last().drop_first());
        assert(cs.drop_first().last() == cs.last());
    }
}

/// Every byte of the children rendering is a space or a digit.
proof fn lemma_child_bytes_bytes(cs: Seq<usize>)
    ensures
        forall|q: int|
            0 <= q < child_bytes(cs).len() ==> is_digit(#[trigger] child_bytes(cs)[q])
                || child_bytes(cs)[q] == 32,
    decreases cs.len(),
{
    if cs.len() > 0 {
        lemma_child_bytes_bytes(cs.drop_last());
        lemma_dec_bytes_digits(cs.last() as nat);
        let pre = child_bytes(cs.drop_last());
        assert forall|q: int| 0 <= q < child_bytes(cs).len() implies is_digit(
            #[trigger] child_bytes(cs)[q],
        ) || child_bytes(cs)[q] == 32 by {
            if q < pre.len() {
                assert(child_bytes(cs)[q] == pre[q]);
            } else if q == pre.len() {
                assert(child_bytes(cs)[q] == 32u8);
            } else {
                assert(child_bytes(cs)[q] == dec_bytes(cs.last() as nat)[q - pre.len() - 1]);
            }
        }
    }
}

/// Parsing one rendered line gives back the parent and its children.
proof fn lemma_parse_line_round(p: usize, cs: Seq<usize>)
    ensures
        parse_line(dec_bytes(p as nat) + child_bytes(cs)) == seq![p] + cs,
    decreases cs.len(),
{
    let s = dec_bytes(p as nat) + child_bytes(cs);
    lemma_dec_bytes_digits(p as nat);
    lemma_tok_round(p as nat);
    let dl = dec_bytes(p as nat).len() as int;
    assert forall|q: int| 0 <= q < dl implies !is_sep(#[trigger] s[q]) by {
        assert(s[q] == dec_bytes(p as nat)[q]);
        assert(is_digit(s[q]));
    }
    if cs.len() == 0 {
        assert(child_bytes(cs) =~= Seq::<u8>::empty());
        assert(s =~= dec_bytes(p as nat));
        lemma_first_sep_at(s, s.len() as int);
        let i = first_sep(s);
        assert(i == s.len());
        assert(s.take(i as int) =~= s);
        assert(tok_value(s.take(i as int)) == Some(p));
        assert(parse_line(Seq::<u8>::empty()) == Seq::<usize>::empty());
        assert(parse_line(s) == seq![p] + Seq::<usize>::empty());
        assert(seq![p] + Seq::<usize>::empty() =~= seq![p] + cs);
    } else {
        lemma_child_bytes_front(cs);
        assert(s[dl] == 32u8);
        lemma_first_sep_at(s, dl);
        let i = first_sep(s);
        assert(i == dl);
        assert(s.take(i as int) =~= dec_bytes(p as nat));
        assert(tok_value(s.take(i as int)) == Some(p));
        assert(i < s.len());
        assert(s.skip(i + 1int) =~= dec_bytes(cs[0] as nat) + child_bytes(cs.drop_first()));
        lemma_parse_line_round(cs[0], cs.drop_first());
        assert(parse_line(s.skip(i + 1int)) == seq![cs[0]] + cs.drop_first());
        assert(parse_line(s) == seq![p] + (seq![cs[0]] + cs.drop_first()));
        assert(seq![p] + (seq![cs[0]] + cs.drop_first()) =~= seq![p] + cs);
    }
}

/// Front decomposition of the rendering: the first line, then the rest.
proof fn lemma_render_front(adj: Seq<(usize, Seq<usize>)>)
    requires
        adj.len() > 0,
    ensures
        render_spec(adj) =~= line_bytes(adj[0]) + render_spec(adj.drop_first()),
    decreases adj.len(),
{
    if adj.len() == 1 {
        assert(adj.drop_last() =~= Seq::<(usize, Seq<usize>)>::empty());
        assert(adj.drop_first() =~= Seq::<(usize, Seq<usize>)>::empty());
        assert(adj.last() == adj[0]);
    } else {
        lemma_render_front(adj.drop_last());
        assert(adj.drop_last()[0] == adj[0]);
        assert(adj.drop_first().drop_last() =~= adj.drop_last().drop_first());
        assert(adj.drop_first().last() == adj.last());
    }
}

/// The rows a rendered adjacency denotes: one per entry, parent first.
pub open spec fn adj_rows(adj: Seq<(usize, Seq<usize>)>) -> Seq<Seq<usize>> {
    Seq::new(adj.len(), |i: int| seq![adj[i].0] + adj[i].1)
}

/// Parsing the rendering of an adjacency yields exactly its rows.
proof fn lemma_parse_render(adj: Seq<(usize, Seq<usize>)>)
    ensures
        parse_rows(render_spec(adj)) == adj_rows(adj),
    decreases adj.len(),
{
    if adj.len() == 0 {
        assert(parse_rows(render_spec(adj)) =~= adj_rows(adj));
    } else {
        lemma_render_front(adj);
        let e = adj[0];
        let content = dec_bytes(e.0 as nat) + child_bytes(e.1);
        let s = render_spec(adj);
        lemma_dec_bytes_digits(e.0 as nat);
        lemma_child_bytes_bytes(e.1);
        let cl = content.len() as int;
        assert(line_bytes(e) =~= content + seq![10u8]);
        assert forall|q: int| 0 <= q < cl implies #[trigger] s[q] != 10 by {
            assert(s[q] == line_bytes(e)[q]);
            assert(line_bytes(e)[q] == content[q]);
            if q < dec_bytes(e.0 as nat).len() {
                assert(content[q] == dec_bytes(e.0 as nat)[q]);
                assert(is_digit(content[q]));
            } else {
                assert(content[q] == child_bytes(e.1)[q - dec_bytes(e.0 as nat).len()]);
            }
        }
        assert(s[cl] == 10u8);
        lemma_first_nl_at(s, cl);
        assert(s.take(cl) =~= content);
        assert(s.skip(cl + 1) =~= render_spec(adj.drop_first()));
        lemma_parse_line_round(e.0, e.1);
        lemma_parse_render(adj.drop_first());
        assert(parse_rows(s) =~= adj_rows(adj));
    }
}

/// Rebuilding from an adjacency's own rows gives the adjacency back,
/// entry for entry, as long as its keys ascend.
proof fn lemma_build_rows(adj: Seq<(usize, Seq<usize>)>)
    requires
        sorted_keys(adj),
    ensures
        build_adj(adj_rows(adj)) == adj,
    decreases adj.len(),
{
    if adj.len() > 0 {
        let rows = adj_rows(adj);
        assert(rows.drop_last() =~= adj_rows(adj.drop_last()));
        assert(sorted_keys(adj.drop_last())) by {
            assert forall|i: int, j: int|
                #![trigger adj.drop_last()[i], adj.drop_last()[j]]
                0 <= i < j < adj.drop_last().len() implies adj.drop_last()[i].0
                < adj.drop_last()[j].0 by {
                assert(adj[i].0 < adj[j].0);
            }
        }
        lemma_build_rows(adj.drop_last());
        let row = rows.last();
        assert(row == seq![adj.last().0] + adj.last().1);
        assert(row[0] == adj.last().0);
        assert(row.drop_first() =~= adj.last().1);
        if adj.len() == 1 {
            assert(upsert(adj.drop_last(), row[0], row.drop_first()) =~= adj);
        } else {
            assert(adj.drop_last().last().0 == adj[adj.len() - 2].0);
            assert(adj[adj.len() - 2].0 < adj[adj.len() - 1].0);
            assert(upsert(adj.drop_last(), row[0], row.drop_first()) =~= adj.drop_last().push(
                (row[0], row.drop_first()),
            ));
            assert(adj.drop_last().push((row[0], row.drop_first())) =~= adj);
        }
    }
}

/// Round trip: rendering a tree to the adjacency output format and
/// re-parsing that text rebuilds exactly the tree's adjacency — the
/// same entry count and the same child sequence for every node — and an
/// adjacency that passed the construction-time checks passes them again
/// with the same root.
pub proof fn lemma_render_parse_round_trip(t: &Tree)
    requires
        t.wf(),
    ensures
        build_adj(parse_rows(render_spec(t.adj()))) == t.adj(),
        t.validated() ==> adj_ok(t.root_spec(), build_adj(parse_rows(render_spec(t.adj())))),
{
    lemma_wf_sorted(t);
    lemma_parse_render(t.adj());
    lemma_build_rows(t.adj());
}

} // verus!
