//! Folding a command sequence into a final position.
//!
//! Three strategies fold the same sequence left to right: the simple rule,
//! the aim-based rule, and a combined rule that tracks both at once and
//! returns the two horizontal-times-depth products.

use vstd::prelude::*;
use crate::command::{Command, CommandError, Direction};
use crate::text::{parse_commands, parse_text};

verus! {

/// Accumulator of the simple rule: `forward` adds to `horizontal`,
/// `down` adds to `depth`, `up` subtracts from it.
pub struct SimplePos {
    pub horizontal: int,
    pub depth: int,
}

/// Accumulator of the aim-based rule: `down`/`up` adjust `aim`;
/// `forward` adds to `horizontal` and adds magnitude times `aim` to `depth`.
pub struct AimPos {
    pub aim: int,
    pub horizontal: int,
    pub depth: int,
}

/// Accumulator of the combined rule: both depths and the aim, tracked in
/// one pass over the commands.
pub struct CombinedPos {
    pub horizontal: int,
    pub depth_simple: int,
    pub depth_aimed: int,
    pub aim: int,
}

pub open spec fn simple_step(p: SimplePos, c: Command) -> SimplePos {
    match c.dir {
        Direction::Forward => SimplePos { horizontal: p.horizontal + c.val, depth: p.depth },
        Direction::Up => SimplePos { horizontal: p.horizontal, depth: p.depth - c.val },
        Direction::Down => SimplePos { horizontal: p.horizontal, depth: p.depth + c.val },
    }
}

/// The simple-rule state after folding `cmds` from the all-zero state.
pub open spec fn simple_pos(cmds: Seq<Command>) -> SimplePos
    decreases cmds.len(),
{
    if cmds.len() == 0 {
        SimplePos { horizontal: 0, depth: 0 }
    } else {
        simple_step(simple_pos(cmds.drop_last()), cmds.last())
    }
}

pub open spec fn aim_step(p: AimPos, c: Command) -> AimPos {
    match c.dir {
        Direction::Forward => AimPos {
            aim: p.aim,
            horizontal: p.horizontal + c.val,
            depth: p.depth + c.val * p.aim,
        },
        Direction::Up => AimPos { aim: p.aim - c.val, horizontal: p.horizontal, depth: p.depth },
        Direction::Down => AimPos { aim: p.aim + c.val, horizontal: p.horizontal, depth: p.depth },
    }
}

/// The aim-rule state after folding `cmds` from the all-zero state.
pub open spec fn aim_pos(cmds: Seq<Command>) -> AimPos
    decreases cmds.len(),
{
    if cmds.len() == 0 {
        AimPos { aim: 0, horizontal: 0, depth: 0 }
    } else {
        aim_step(aim_pos(cmds.drop_last()), cmds.last())
    }
}

pub open spec fn combined_step(p: CombinedPos, c: Command) -> CombinedPos {
    match c.dir {
        Direction::Forward => CombinedPos {
            horizontal: p.horizontal + c.val,
            depth_simple: p.depth_simple,
            depth_aimed: p.depth_aimed + c.val * p.aim,
            aim: p.aim,
        },
        Direction::Up => CombinedPos {
            horizontal: p.horizontal,
            depth_simple: p.depth_simple - c.val,
            depth_aimed: p.depth_aimed,
            aim: p.aim - c.val,
        },
        Direction::Down => CombinedPos {
            horizontal: p.horizontal,
            depth_simple: p.depth_simple + c.val,
            depth_aimed: p.depth_aimed,
            aim: p.aim + c.val,
        },
    }
}

/// The combined state after folding `cmds` from the all-zero state.
pub open spec fn combined_pos(cmds: Seq<Command>) -> CombinedPos
    decreases cmds.len(),
{
    if cmds.len() == 0 {
        CombinedPos { horizontal: 0, depth_simple: 0, depth_aimed: 0, aim: 0 }
    } else {
        combined_step(combined_pos(cmds.drop_last()), cmds.last())
    }
}

/// The two answers of the combined rule: horizontal times each depth.
pub open spec fn combined_products(cmds: Seq<Command>) -> (int, int) {
    let p = combined_pos(cmds);
    (p.horizontal * p.depth_simple, p.horizontal * p.depth_aimed)
}

pub open spec fn in_i32(x: int) -> bool {
    i32::MIN <= x <= i32::MAX
}

pub open spec fn simple_in_range(p: SimplePos) -> bool {
    in_i32(p.horizontal) && in_i32(p.depth)
}

pub open spec fn aim_in_range(p: AimPos) -> bool {
    in_i32(p.aim) && in_i32(p.horizontal) && in_i32(p.depth)
}

pub open spec fn combined_in_range(p: CombinedPos) -> bool {
    in_i32(p.horizontal) && in_i32(p.depth_simple) && in_i32(p.depth_aimed) && in_i32(p.aim)
}

/// Every intermediate state of the simple fold stays within `i32`.
pub open spec fn simple_fits(cmds: Seq<Command>) -> bool {
    forall|k: int| 0 <= k <= cmds.len() ==> simple_in_range(simple_pos(#[trigger] cmds.take(k)))
}

/// Every intermediate state of the aim fold stays within `i32`.
pub open spec fn aim_fits(cmds: Seq<Command>) -> bool {
    forall|k: int| 0 <= k <= cmds.len() ==> aim_in_range(aim_pos(#[trigger] cmds.take(k)))
}

/// Every intermediate state of the combined fold stays within `i32`,
/// and so do its two final products.
pub open spec fn combined_fits(cmds: Seq<Command>) -> bool {
    &&& forall|k: int|
        0 <= k <= cmds.len() ==> combined_in_range(combined_pos(#[trigger] cmds.take(k)))
    &&& in_i32(combined_products(cmds).0)
    &&& in_i32(combined_products(cmds).1)
}

proof fn lemma_take_succ(s: Seq<Command>, k: int)
    requires
        0 <= k < s.len(),
    ensures
        s.take(k + 1).drop_last() =~= s.take(k),
        s.take(k + 1).last() == s[k],
{
}

/// The combined fold agrees field by field with the two single-rule folds.
pub proof fn lemma_combined_agrees(cmds: Seq<Command>)
    ensures
        combined_pos(cmds).horizontal == simple_pos(cmds).horizontal,
        combined_pos(cmds).depth_simple == simple_pos(cmds).depth,
        combined_pos(cmds).horizontal == aim_pos(cmds).horizontal,
        combined_pos(cmds).depth_aimed == aim_pos(cmds).depth,
        combined_pos(cmds).aim == aim_pos(cmds).aim,
    decreases cmds.len(),
{
    if cmds.len() > 0 {
        lemma_combined_agrees(cmds.drop_last());
    }
}

/// Equivalence of the strategies: for every command sequence, the combined
/// rule's two products equal the product of the simple rule's horizontal and
/// depth, and the product of the aim rule's horizontal and depth.
pub proof fn lemma_combined_products_equivalence(cmds: Seq<Command>)
    ensures
        combined_products(cmds).0 == simple_pos(cmds).horizontal * simple_pos(cmds).depth,
        combined_products(cmds).1 == aim_pos(cmds).horizontal * aim_pos(cmds).depth,
{
    lemma_combined_agrees(cmds);
}

/// Folds `cmds` under the simple rule, reporting `Overflow` as soon as an
/// intermediate state leaves the `i32` range.
pub fn simple_position(cmds: &Vec<Command>) -> (r: Result<(i32, i32), CommandError>)
    ensures
        simple_fits(cmds@) ==> (r matches Ok(p) && p.0 == simple_pos(cmds@).horizontal && p.1
            == simple_pos(cmds@).depth),
        !simple_fits(cmds@) ==> r == Err::<(i32, i32), CommandError>(CommandError::Overflow),
{
    let mut h: i32 = 0;
    let mut d: i32 = 0;
    let mut k: usize = 0;
    proof {
        assert(cmds@.take(0) =~= Seq::<Command>::empty());
    }
    while k < cmds.len()
        invariant
            k <= cmds@.len(),
            h == simple_pos(cmds@.take(k as int)).horizontal,
            d == simple_pos(cmds@.take(k as int)).depth,
            forall|m: int| 0 <= m <= k ==> simple_in_range(simple_pos(#[trigger] cmds@.take(m))),
        decreases cmds@.len() - k,
    {
        let c = cmds[k];
        proof {
            lemma_take_succ(cmds@, k as int);
        }
        let (nh, nd): (i64, i64) = match c.dir {
            Direction::Forward => (h as i64 + c.val as i64, d as i64),
            Direction::Up => (h as i64, d as i64 - c.val as i64),
            Direction::Down => (h as i64, d as i64 + c.val as i64),
        };
        proof {
            assert(nh == simple_pos(cmds@.take(k + 1)).horizontal);
            assert(nd == simple_pos(cmds@.take(k + 1)).depth);
        }
        if nh < i32::MIN as i64 || nh > i32::MAX as i64 || nd < i32::MIN as i64 || nd
            > i32::MAX as i64 {
            proof {
                assert(!simple_in_range(simple_pos(cmds@.take(k + 1))));
            }
            return Err(CommandError::Overflow);
        }
        h = nh as i32;
        d = nd as i32;
        k += 1;
    }
    proof {
        assert(cmds@.take(cmds@.len() as int) =~= cmds@);
    }
    Ok((h, d))
}

/// Folds `cmds` under the aim rule, reporting `Overflow` as soon as an
/// intermediate state leaves the `i32` range. Returns horizontal and depth.
pub fn aim_position(cmds: &Vec<Command>) -> (r: Result<(i32, i32), CommandError>)
    ensures
        aim_fits(cmds@) ==> (r matches Ok(p) && p.0 == aim_pos(cmds@).horizontal && p.1 == aim_pos(
            cmds@,
        ).depth),
        !aim_fits(cmds@) ==> r == Err::<(i32, i32), CommandError>(CommandError::Overflow),
{
    let mut a: i32 = 0;
    let mut h: i32 = 0;
    let mut d: i32 = 0;
    let mut k: usize = 0;
    proof {
        assert(cmds@.take(0) =~= Seq::<Command>::empty());
    }
    while k < cmds.len()
        invariant
            k <= cmds@.len(),
            a == aim_pos(cmds@.take(k as int)).aim,
            h == aim_pos(cmds@.take(k as int)).horizontal,
            d == aim_pos(cmds@.take(k as int)).depth,
            forall|m: int| 0 <= m <= k ==> aim_in_range(aim_pos(#[trigger] cmds@.take(m))),
        decreases cmds@.len() - k,
    {
        let c = cmds[k];
        proof {
            lemma_take_succ(cmds@, k as int);
            lemma_i32_product_bounded(c.val as int, a as int);
        }
        let (na, nh, nd): (i64, i64, i64) = match c.dir {
            Direction::Forward => (
                a as i64,
                h as i64 + c.val as i64,
                d as i64 + (c.val as i64) * (a as i64),
            ),
            Direction::Up => (a as i64 - c.val as i64, h as i64, d as i64),
            Direction::Down => (a as i64 + c.val as i64, h as i64, d as i64),
        };
        proof {
            assert(na == aim_pos(cmds@.take(k + 1)).aim);
            assert(nh == aim_pos(cmds@.take(k + 1)).horizontal);
            assert(nd == aim_pos(cmds@.take(k + 1)).depth);
        }
        if na < i32::MIN as i64 || na > i32::MAX as i64 || nh < i32::MIN as i64 || nh
            > i32::MAX as i64 || nd < i32::MIN as i64 || nd > i32::MAX as i64 {
            proof {
                assert(!aim_in_range(aim_pos(cmds@.take(k + 1))));
            }
            return Err(CommandError::Overflow);
        }
        a = na as i32;
        h = nh as i32;
        d = nd as i32;
        k += 1;
    }
    proof {
        assert(cmds@.take(cmds@.len() as int) =~= cmds@);
    }
    Ok((h, d))
}

/// The product of two values in `i32` range stays well within `i64` range.
proof fn lemma_i32_product_bounded(x: int, y: int)
    ensures
        (in_i32(x) && in_i32(y)) ==> -0x4000_0000_0000_0000 <= x * y <= 0x4000_0000_0000_0000,
{
    assert((-0x8000_0000 <= x <= 0x7fff_ffff && -0x8000_0000 <= y <= 0x7fff_ffff)
        ==> -0x4000_0000_0000_0000 <= x * y <= 0x4000_0000_0000_0000) by (nonlinear_arith);
}

/// Folds `cmds` under the combined rule and returns the two products,
/// horizontal times each depth, reporting `Overflow` as soon as an
/// intermediate state — or either product — leaves the `i32` range.
pub fn combined_answers(cmds: &Vec<Command>) -> (r: Result<(i32, i32), CommandError>)
    ensures
        combined_fits(cmds@) ==> (r matches Ok(p) && p.0 == combined_products(cmds@).0 && p.1
            == combined_products(cmds@).1),
        !combined_fits(cmds@) ==> r == Err::<(i32, i32), CommandError>(CommandError::Overflow),
{
    let mut h: i32 = 0;
    let mut da: i32 = 0;
    let mut db: i32 = 0;
    let mut a: i32 = 0;
    let mut k: usize = 0;
    proof {
        assert(cmds@.take(0) =~= Seq::<Command>::empty());
    }
    while k < cmds.len()
        invariant
            k <= cmds@.len(),
            h == combined_pos(cmds@.take(k as int)).horizontal,
            da == combined_pos(cmds@.take(k as int)).depth_simple,
            db == combined_pos(cmds@.take(k as int)).depth_aimed,
            a == combined_pos(cmds@.take(k as int)).aim,
            forall|m: int|
                0 <= m <= k ==> combined_in_range(combined_pos(#[trigger] cmds@.take(m))),
        decreases cmds@.len() - k,
    {
        let c = cmds[k];
        proof {
            lemma_take_succ(cmds@, k as int);
            lemma_i32_product_bounded(c.val as int, a as int);
        }
        let (nh, nda, ndb, na): (i64, i64, i64, i64) = match c.dir {
            Direction::Forward => (
                h as i64 + c.val as i64,
                da as i64,
                db as i64 + (c.val as i64) * (a as i64),
                a as i64,
            ),
            Direction::Up => (h as i64, da as i64 - c.val as i64, db as i64, a as i64 - c.val as i64),
            Direction::Down => (
                h as i64,
                da as i64 + c.val as i64,
                db as i64,
                a as i64 + c.val as i64,
            ),
        };
        proof {
            assert(nh == combined_pos(cmds@.take(k + 1)).horizontal);
            assert(nda == combined_pos(cmds@.take(k + 1)).depth_simple);
            assert(ndb == combined_pos(cmds@.take(k + 1)).depth_aimed);
            assert(na == combined_pos(cmds@.take(k + 1)).aim);
        }
        if nh < i32::MIN as i64 || nh > i32::MAX as i64 || nda < i32::MIN as i64 || nda
            > i32::MAX as i64 || ndb < i32::MIN as i64 || ndb > i32::MAX as i64 || na
            < i32::MIN as i64 || na > i32::MAX as i64 {
            proof {
                assert(!combined_in_range(combined_pos(cmds@.take(k + 1))));
            }
            return Err(CommandError::Overflow);
        }
        h = nh as i32;
        da = nda as i32;
        db = ndb as i32;
        a = na as i32;
        k += 1;
    }
    proof {
        assert(cmds@.take(cmds@.len() as int) =~= cmds@);
        lemma_i32_product_bounded(h as int, da as int);
        lemma_i32_product_bounded(h as int, db as int);
    }
    let pa: i64 = (h as i64) * (da as i64);
    let pb: i64 = (h as i64) * (db as i64);
    if pa < i32::MIN as i64 || pa > i32::MAX as i64 || pb < i32::MIN as i64 || pb
        > i32::MAX as i64 {
        return Err(CommandError::Overflow);
    }
    Ok((pa as i32, pb as i32))
}

/// The complete outcome of the simple-rule evaluator on a text: the final
/// (horizontal, depth) pair, or the first parse error, or `Overflow`.
pub open spec fn spec_calc_pos(s: Seq<char>) -> Result<(i32, i32), CommandError> {
    match parse_text(s) {
        Err(e) => Err(e),
        Ok(cmds) => if simple_fits(cmds) {
            Ok((simple_pos(cmds).horizontal as i32, simple_pos(cmds).depth as i32))
        } else {
            Err(CommandError::Overflow)
        },
    }
}

/// The complete outcome of the aim-rule evaluator on a text.
pub open spec fn spec_calc_pos2(s: Seq<char>) -> Result<(i32, i32), CommandError> {
    match parse_text(s) {
        Err(e) => Err(e),
        Ok(cmds) => if aim_fits(cmds) {
            Ok((aim_pos(cmds).horizontal as i32, aim_pos(cmds).depth as i32))
        } else {
            Err(CommandError::Overflow)
        },
    }
}

/// The complete outcome of the combined evaluator on a text: both
/// horizontal-times-depth products at once.
pub open spec fn spec_calc_pos_combined(s: Seq<char>) -> Result<(i32, i32), CommandError> {
    match parse_text(s) {
        Err(e) => Err(e),
        Ok(cmds) => if combined_fits(cmds) {
            Ok((combined_products(cmds).0 as i32, combined_products(cmds).1 as i32))
        } else {
            Err(CommandError::Overflow)
        },
    }
}

/// Final position under the simple rule: `forward` advances horizontally,
/// `down` and `up` change depth directly.
pub fn calc_pos(movements: &str) -> (r: Result<(i32, i32), CommandError>)
    ensures
        r == spec_calc_pos(movements@),
{
    let cmds = match parse_commands(movements) {
        Ok(v) => v,
        Err(e) => {
            return Err(e);
        },
    };
    simple_position(&cmds)
}

/// Final position under the aim rule: `down` and `up` change the aim, and
/// `forward` advances horizontally while diving by magnitude times aim.
pub fn calc_pos2(movements: &str) -> (r: Result<(i32, i32), CommandError>)
    ensures
        r == spec_calc_pos2(movements@),
{
    let cmds = match parse_commands(movements) {
        Ok(v) => v,
        Err(e) => {
            return Err(e);
        },
    };
    aim_position(&cmds)
}

/// Both answer products in a single pass: horizontal times the simple
/// depth, and horizontal times the aimed depth.
pub fn calc_pos_combined(movements: &str) -> (r: Result<(i32, i32), CommandError>)
    ensures
        r == spec_calc_pos_combined(movements@),
{
    let cmds = match parse_commands(movements) {
        Ok(v) => v,
        Err(e) => {
            return Err(e);
        },
    };
    combined_answers(&cmds)
}

/// Equivalence at the evaluators' outcomes: whenever all three evaluators
/// succeed on the same text, the combined answers are exactly the two
/// pairwise products of the simple and the aim-based results.
pub proof fn lemma_outcomes_equivalence(s: Seq<char>, a: (i32, i32), b: (i32, i32), c: (i32, i32))
    requires
        spec_calc_pos(s) == Ok::<(i32, i32), CommandError>(a),
        spec_calc_pos2(s) == Ok::<(i32, i32), CommandError>(b),
        spec_calc_pos_combined(s) == Ok::<(i32, i32), CommandError>(c),
    ensures
        c.0 == a.0 * a.1,
        c.1 == b.0 * b.1,
{
    match parse_text(s) {
        Ok(cmds) => {
            assert(cmds.take(cmds.len() as int) =~= cmds);
            lemma_combined_products_equivalence(cmds);
        },
        Err(_) => {},
    }
}

/// Re-running an evaluator on the same text yields the same result: each
/// evaluator's contract fixes its result as a function of the input text
/// alone, so any two results obtained for the same text are equal.
pub proof fn lemma_rerun_agrees(
    s: Seq<char>,
    r1: Result<(i32, i32), CommandError>,
    r2: Result<(i32, i32), CommandError>,
)
    requires
        (r1 == spec_calc_pos(s) && r2 == spec_calc_pos(s)) || (r1 == spec_calc_pos2(s) && r2
            == spec_calc_pos2(s)) || (r1 == spec_calc_pos_combined(s) && r2
            == spec_calc_pos_combined(s)),
    ensures
        r1 == r2,
{
}

} // verus!

