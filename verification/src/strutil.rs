use vstd::prelude::*;
use vstd::string::StrSliceExecFns;
use vstd::string::StringExecFns;

verus! {

/// The reserved placeholder glyph: a middle dot.
pub open spec fn placeholder_char() -> char {
    '\u{b7}'
}

/// Relies on String::push: appends one character at the end.
#[verifier::external_body]
pub(crate) fn push_char(s: &mut String, c: char)
    ensures
        final(s)@ == old(s)@.push(c),
{
    s.push(c);
}

/// How many times character `c` occurs in `s`.
pub open spec fn count_char(s: Seq<char>, c: char) -> nat
    decreases s.len(),
{
    if s.len() == 0 {
        0
    } else {
        count_char(s.drop_last(), c) + (if s.last() == c {
            1nat
        } else {
            0nat
        })
    }
}

/// Count the occurrences of `c` in `s`.
pub fn count_char_exec(s: &str, c: char) -> (r: usize)
    ensures
        r == count_char(s@, c),
{
    let n = s.unicode_len();
    let mut r: usize = 0;
    let mut i: usize = 0;
    while i < n
        invariant
            0 <= i <= n,
            n == s@.len(),
            r == count_char(s@.take(i as int), c),
            r <= i,
        decreases n - i,
    {
        let ch = s.get_char(i);
        proof {
            assert(s@.take(i + 1).drop_last() =~= s@.take(i as int));
            assert(s@.take(i + 1).last() == s@[i as int]);
        }
        if ch == c {
            r += 1;
        }
        i += 1;
    }
    proof {
        assert(s@.take(n as int) =~= s@);
    }
    r
}

/// The label with each placeholder glyph replaced, left to right, by the
/// next argument. Placeholders beyond the argument list stay as they are.
pub open spec fn splice(op: Seq<char>, args: Seq<Seq<char>>) -> Seq<char>
    decreases op.len(),
{
    if op.len() == 0 {
        Seq::empty()
    } else if op[0] == placeholder_char() && args.len() > 0 {
        args[0] + splice(op.subrange(1, op.len() as int), args.subrange(1, args.len() as int))
    } else {
        seq![op[0]] + splice(op.subrange(1, op.len() as int), args)
    }
}

/// The arguments joined by a comma and a space.
pub open spec fn join_args(args: Seq<Seq<char>>) -> Seq<char>
    decreases args.len(),
{
    if args.len() == 0 {
        Seq::empty()
    } else if args.len() == 1 {
        args[0]
    } else {
        join_args(args.drop_last()) + seq![',', ' '] + args.last()
    }
}

/// The rewritten label: when the label already holds exactly one
/// placeholder per argument, the placeholders are filled in one for one;
/// otherwise the argument list is appended in parentheses.
pub open spec fn rewrite_op(op: Seq<char>, args: Seq<Seq<char>>) -> Seq<char> {
    if count_char(op, placeholder_char()) == args.len() {
        splice(op, args)
    } else {
        op + seq!['('] + join_args(args) + seq![')']
    }
}

/// Replace the placeholders of `op` by the arguments, left to right.
pub(crate) fn splice_exec(op: &str, args: &Vec<String>) -> (r: String)
    ensures
        r@ == splice(op@, args@.map_values(|a: String| a@)),
{
    let ghost am = args@.map_values(|a: String| a@);
    let n = op.unicode_len();
    let mut out = String::new();
    let mut i: usize = 0;
    let mut ai: usize = 0;
    proof {
        assert(op@.subrange(0, n as int) =~= op@);
        assert(am.subrange(0, am.len() as int) =~= am);
        assert(out@ + splice(op@, am) =~= splice(op@, am));
    }
    while i < n
        invariant
            0 <= i <= n,
            0 <= ai <= args@.len(),
            n == op@.len(),
            am == args@.map_values(|a: String| a@),
            splice(op@, am) == out@ + splice(
                op@.subrange(i as int, n as int),
                am.subrange(ai as int, am.len() as int),
            ),
        decreases n - i,
    {
        let ch = op.get_char(i);
        let ghost rest = op@.subrange(i as int, n as int);
        let ghost arest = am.subrange(ai as int, am.len() as int);
        proof {
            assert(rest[0] == op@[i as int]);
            assert(rest.subrange(1, rest.len() as int) =~= op@.subrange(i + 1, n as int));
        }
        if ch == '\u{b7}' && ai < args.len() {
            proof {
                assert(arest[0] == am[ai as int]);
                assert(arest.subrange(1, arest.len() as int) =~= am.subrange(
                    ai + 1,
                    am.len() as int,
                ));
                assert(splice(rest, arest) == am[ai as int] + splice(
                    op@.subrange(i + 1, n as int),
                    am.subrange(ai + 1, am.len() as int),
                ));
            }
            out.append(args[ai].as_str());
            ai += 1;
        } else {
            proof {
                assert(splice(rest, arest) == seq![op@[i as int]] + splice(
                    op@.subrange(i + 1, n as int),
                    arest,
                ));
            }
            push_char(&mut out, ch);
        }
        i += 1;
    }
    proof {
        assert(op@.subrange(n as int, n as int) =~= Seq::<char>::empty());
        assert(splice(Seq::<char>::empty(), am.subrange(ai as int, am.len() as int))
            == Seq::<char>::empty());
        assert(out@ =~= out@ + Seq::<char>::empty());
    }
    out
}

/// Join the arguments with a comma and a space between neighbours.
pub(crate) fn join_args_exec(args: &Vec<String>) -> (r: String)
    ensures
        r@ == join_args(args@.map_values(|a: String| a@)),
{
    let ghost am = args@.map_values(|a: String| a@);
    let mut out = String::new();
    let mut i: usize = 0;
    while i < args.len()
        invariant
            0 <= i <= args@.len(),
            am == args@.map_values(|a: String| a@),
            out@ == join_args(am.take(i as int)),
        decreases args@.len() - i,
    {
        proof {
            assert(am.take(i + 1).drop_last() =~= am.take(i as int));
            assert(am.take(i + 1).last() == am[i as int]);
        }
        if i > 0 {
            out.append(", ");
            proof {
                reveal_strlit(", ");
            }
        }
        out.append(args[i].as_str());
        proof {
            if i == 0 {
                assert(out@ =~= join_args(am.take(1)));
            } else {
                assert(", "@ =~= seq![',', ' ']);
                assert(out@ =~= join_args(am.take(i + 1)));
            }
        }
        i += 1;
    }
    proof {
        assert(am.take(am.len() as int) =~= am);
    }
    out
}

/// Rewrite the label for the given argument list.
pub(crate) fn rewrite_op_exec(op: &str, args: &Vec<String>) -> (r: String)
    ensures
        r@ == rewrite_op(op@, args@.map_values(|a: String| a@)),
{
    let cnt = count_char_exec(op, '\u{b7}');
    if cnt == args.len() {
        splice_exec(op, args)
    } else {
        let mut out = String::new();
        out.append(op);
        push_char(&mut out, '(');
        let joined = join_args_exec(args);
        out.append(joined.as_str());
        push_char(&mut out, ')');
        proof {
            assert(out@ =~= op@ + seq!['('] + join_args(args@.map_values(|a: String| a@)) + seq![
                ')',
            ]);
        }
        out
    }
}

/// The character of one decimal digit.
pub open spec fn digit_char(d: nat) -> char {
    if d == 0 {
        '0'
    } else if d == 1 {
        '1'
    } else if d == 2 {
        '2'
    } else if d == 3 {
        '3'
    } else if d == 4 {
        '4'
    } else if d == 5 {
        '5'
    } else if d == 6 {
        '6'
    } else if d == 7 {
        '7'
    } else if d == 8 {
        '8'
    } else {
        '9'
    }
}

/// The decimal rendering of `n`, most significant digit first.
pub open spec fn dec_spec(n: nat) -> Seq<char>
    decreases n,
{
    if n < 10 {
        seq![digit_char(n)]
    } else {
        dec_spec(n / 10).push(digit_char(n % 10))
    }
}

/// The decimal digits of `n`.
pub(crate) fn dec_digits(n: usize) -> (r: String)
    ensures
        r@ == dec_spec(n as nat),
    decreases n,
{
    let mut s = if n >= 10 {
        proof {
            assert(n / 10 < n) by (nonlinear_arith)
                requires
                    n >= 10,
            ;
        }
        dec_digits(n / 10)
    } else {
        String::new()
    };
    let d = n % 10;
    let c = if d == 0 {
        '0'
    } else if d == 1 {
        '1'
    } else if d == 2 {
        '2'
    } else if d == 3 {
        '3'
    } else if d == 4 {
        '4'
    } else if d == 5 {
        '5'
    } else if d == 6 {
        '6'
    } else if d == 7 {
        '7'
    } else if d == 8 {
        '8'
    } else {
        '9'
    };
    push_char(&mut s, c);
    s
}

} // verus!
