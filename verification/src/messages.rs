//! Building the human-readable commit summary for a batch of added paths.

use crate::paths::{common_base_path, common_base_spec, extend_bytes, views_of};
use vstd::prelude::*;

verus! {

/// The decimal digits of `n`.
pub open spec fn dec_spec(n: nat) -> Seq<u8>
    decreases n,
{
    if n < 10 {
        seq![(48 + n) as u8]
    } else {
        dec_spec(n / 10) + seq![(48 + n % 10) as u8]
    }
}

/// Render `n` in decimal.
pub fn dec_bytes(n: usize) -> (r: Vec<u8>)
    ensures
        r@ == dec_spec(n as nat),
    decreases n,
{
    if n < 10 {
        let mut r: Vec<u8> = Vec::new();
        r.push(48 + (n as u8));
        proof {
            assert(r@ =~= dec_spec(n as nat));
        }
        r
    } else {
        let mut r = dec_bytes(n / 10);
        r.push(48 + ((n % 10) as u8));
        proof {
            assert(r@ =~= dec_spec(n as nat));
        }
        r
    }
}

/// `adding `
pub open spec fn lit_adding() -> Seq<u8> {
    seq![97u8, 100u8, 100u8, 105u8, 110u8, 103u8, 32u8]
}

/// ` files to `
pub open spec fn lit_files_to() -> Seq<u8> {
    seq![32u8, 102u8, 105u8, 108u8, 101u8, 115u8, 32u8, 116u8, 111u8, 32u8]
}

/// Two line breaks.
pub open spec fn lit_blank() -> Seq<u8> {
    seq![10u8, 10u8]
}

/// `- `
pub open spec fn lit_dash() -> Seq<u8> {
    seq![45u8, 32u8]
}

/// The per-path lines of a batch message: `- ` and the path, one line each.
pub open spec fn lines_spec(ps: Seq<Seq<u8>>) -> Seq<u8>
    decreases ps.len(),
{
    if ps.len() == 0 {
        Seq::empty()
    } else {
        lines_spec(ps.drop_last()) + lit_dash() + ps.last() + seq![10u8]
    }
}

/// The whole commit summary: empty for no paths, `adding ` and the path for
/// one, and for several the count, the common base, and one line per path.
pub open spec fn message_spec(ps: Seq<Seq<u8>>) -> Seq<u8> {
    if ps.len() == 0 {
        Seq::empty()
    } else if ps.len() == 1 {
        lit_adding() + ps[0]
    } else {
        lit_adding() + dec_spec(ps.len()) + lit_files_to() + common_base_spec(ps) + lit_blank()
            + lines_spec(ps)
    }
}

fn push_lit_adding(out: &mut Vec<u8>)
    ensures
        final(out)@ == old(out)@ + lit_adding(),
{
    let ghost o0 = out@;
    out.push(97u8);
    out.push(100u8);
    out.push(100u8);
    out.push(105u8);
    out.push(110u8);
    out.push(103u8);
    out.push(32u8);
    proof {
        assert(out@ =~= o0 + lit_adding());
    }
}

fn push_lit_files_to(out: &mut Vec<u8>)
    ensures
        final(out)@ == old(out)@ + lit_files_to(),
{
    let ghost o0 = out@;
    out.push(32u8);
    out.push(102u8);
    out.push(105u8);
    out.push(108u8);
    out.push(101u8);
    out.push(115u8);
    out.push(32u8);
    out.push(116u8);
    out.push(111u8);
    out.push(32u8);
    proof {
        assert(out@ =~= o0 + lit_files_to());
    }
}

/// Compose the commit summary for the added paths, as `message_spec` lays
/// it out.
pub fn build_git_message(to_commit: &Vec<Vec<u8>>) -> (r: Vec<u8>)
    ensures
        r@ == message_spec(views_of(to_commit@)),
{
    let n = to_commit.len();
    if n == 0 {
        return Vec::new();
    }
    if n == 1 {
        let mut r: Vec<u8> = Vec::new();
        push_lit_adding(&mut r);
        extend_bytes(&mut r, &to_commit[0]);
        proof {
            assert(r@ =~= lit_adding() + views_of(to_commit@)[0]);
        }
        return r;
    }
    let mut r: Vec<u8> = Vec::new();
    push_lit_adding(&mut r);
    let count = dec_bytes(n);
    extend_bytes(&mut r, &count);
    push_lit_files_to(&mut r);
    let base = common_base_path(to_commit);
    extend_bytes(&mut r, &base);
    r.push(10u8);
    r.push(10u8);
    let ghost head = r@;
    proof {
        assert(head =~= lit_adding() + dec_spec(n as nat) + lit_files_to() + common_base_spec(
            views_of(to_commit@),
        ) + lit_blank());
        assert(r@ =~= head + lines_spec(views_of(to_commit@).take(0)));
    }
    let mut i: usize = 0;
    while i < n
        invariant
            n == to_commit@.len(),
            i <= n,
            r@ == head + lines_spec(views_of(to_commit@).take(i as int)),
        decreases n - i,
    {
        proof {
            assert(views_of(to_commit@).take(i as int + 1).drop_last() =~= views_of(
                to_commit@,
            ).take(i as int));
            assert(views_of(to_commit@).take(i as int + 1).last() == to_commit@[i as int]@);
        }
        r.push(45u8);
        r.push(32u8);
        extend_bytes(&mut r, &to_commit[i]);
        r.push(10u8);
        proof {
            assert(r@ =~= head + lines_spec(views_of(to_commit@).take(i as int + 1)));
        }
        i = i + 1;
    }
    proof {
        assert(views_of(to_commit@).take(n as int) =~= views_of(to_commit@));
        assert(r@ =~= message_spec(views_of(to_commit@)));
    }
    r
}

} // verus!
