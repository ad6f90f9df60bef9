//! The notation parser: from an input string to a typed dice expression.
//!
//! The grammar is a closed set of shapes, classified by prefix and by
//! contained delimiter: `adv`/`dis` with an optional die size and
//! modifier, exploding dice (`2d6!`), keep-highest (`4d6k3`),
//! keep-lowest (`4d6kl1`), and basic dice (`XdY`), each with an optional
//! trailing signed modifier. [`spec_parse`] states the whole grammar over
//! character sequences; [`parse`] returns exactly what it says.

use vstd::prelude::*;

use crate::text::{
    append_int, append_signed, contains_seq, contains_sub, dec_int, dec_signed, is_match_at,
    lemma_digits_value_nonneg, lemma_rfind_char, match_at, normalize, normalized_chars, parse_int,
    parse_int_spec, pat1, pat2, pat3, rfind, rfind_char, split_once, split_two, strip_prefix_all,
    strip_prefix_repeat, strip_suffix_all_char, strip_suffix_repeat, subrange_chars,
};

verus! {

/// A parsed dice expression: one of the six recognized notation shapes.
///
/// Invariants (see [`DiceExpression::wf`]): `count >= 1` and `sides >= 1`
/// wherever they appear, and `1 <= keep <= count` for the keep variants.
/// [`crate::parser::parse`] only ever returns well-formed expressions.
#[derive(Debug, Clone, Copy, PartialEq, Eq, Structural)]
pub enum DiceExpression {
    Basic { count: i32, sides: i32, modifier: i32 },
    KeepHighest { count: i32, sides: i32, keep: i32, modifier: i32 },
    KeepLowest { count: i32, sides: i32, keep: i32, modifier: i32 },
    Advantage { sides: i32, modifier: i32 },
    Disadvantage { sides: i32, modifier: i32 },
    Exploding { count: i32, sides: i32, modifier: i32 },
}

impl DiceExpression {
    /// Structural invariant of an expression: positive dice count and die
    /// size, and a keep count between one and the dice count.
    pub open spec fn wf(self) -> bool {
        match self {
            DiceExpression::Basic { count, sides, modifier } => count >= 1 && sides >= 1,
            DiceExpression::KeepHighest { count, sides, keep, modifier } => count >= 1 && sides
                >= 1 && 1 <= keep <= count,
            DiceExpression::KeepLowest { count, sides, keep, modifier } => count >= 1 && sides >= 1
                && 1 <= keep <= count,
            DiceExpression::Advantage { sides, modifier } => sides >= 1,
            DiceExpression::Disadvantage { sides, modifier } => sides >= 1,
            DiceExpression::Exploding { count, sides, modifier } => count >= 1 && sides >= 1,
        }
    }

    /// Exec check of [`DiceExpression::wf`], for unverified callers that
    /// must establish it before calling into the roll engine.
    pub fn is_well_formed(&self) -> (r: bool)
        ensures
            r == self.wf(),
    {
        match *self {
            DiceExpression::Basic { count, sides, modifier } => count >= 1 && sides >= 1,
            DiceExpression::KeepHighest { count, sides, keep, modifier } => count >= 1 && sides
                >= 1 && 1 <= keep && keep <= count,
            DiceExpression::KeepLowest { count, sides, keep, modifier } => count >= 1 && sides >= 1
                && 1 <= keep && keep <= count,
            DiceExpression::Advantage { sides, modifier } => sides >= 1,
            DiceExpression::Disadvantage { sides, modifier } => sides >= 1,
            DiceExpression::Exploding { count, sides, modifier } => count >= 1 && sides >= 1,
        }
    }
}

/// How an executable parse outcome corresponds to a specified one: the
/// same variant, with equal expressions or equal message characters.
pub open spec fn matches_outcome(
    r: Result<DiceExpression, String>,
    m: Result<DiceExpression, Seq<char>>,
) -> bool {
    match (r, m) {
        (Result::Ok(e), Result::Ok(me)) => e == me,
        (Result::Err(s), Result::Err(ms)) => s@ == ms,
        _ => false,
    }
}

/// The modifier of an extracted trailing segment: the segment's integer
/// value, or zero where it denotes none.
pub open spec fn modifier_or_zero(o: Option<i32>) -> i32 {
    match o {
        Option::Some(v) => v,
        Option::None => 0,
    }
}

/// Negation of a parsed modifier. The `i32::MIN` guard can never fire
/// here: the segment after the last `-` holds no `-`, so its value is
/// never negative.
pub open spec fn neg_modifier(v: i32) -> i32 {
    if v == i32::MIN {
        i32::MIN
    } else {
        (0 - v) as i32
    }
}

/// Splitting an input into its dice part and trailing signed modifier:
/// everything after the last `+` (or, failing that, the last `-`) is read
/// as the modifier, defaulting to zero where it denotes no integer; the
/// sign of a `-` separator is applied to the value.
pub open spec fn extract_modifier_spec(s: Seq<char>) -> (Seq<char>, i32) {
    match rfind_char(s, '+') {
        Option::Some(p) => (
            s.subrange(0, p),
            modifier_or_zero(parse_int_spec(s.subrange(p + 1, s.len() as int))),
        ),
        Option::None => match rfind_char(s, '-') {
            Option::Some(p) => (
                s.subrange(0, p),
                neg_modifier(modifier_or_zero(parse_int_spec(s.subrange(p + 1, s.len() as int)))),
            ),
            Option::None => (s, 0),
        },
    }
}

/// The outcome of basic notation once its two segments are read.
pub open spec fn basic_from_numbers(
    count_o: Option<i32>,
    sides_o: Option<i32>,
    modifier: i32,
) -> Result<DiceExpression, Seq<char>> {
    match (count_o, sides_o) {
        (Option::None, _) => Err("Invalid dice count"@),
        (Option::Some(_), Option::None) => Err("Invalid die size"@),
        (Option::Some(count), Option::Some(sides)) => if count < 1 || sides < 1 {
            Err("Dice count and sides must be positive"@)
        } else {
            Ok(DiceExpression::Basic { count, sides, modifier })
        },
    }
}

/// Basic notation `XdY`: exactly one `d`, an integer count and die size,
/// both positive.
pub open spec fn parse_basic_spec(dice: Seq<char>, modifier: i32) -> Result<
    DiceExpression,
    Seq<char>,
> {
    match split_two(dice, seq!['d']) {
        Option::None => Err("Invalid dice notation. Use format: XdY"@),
        Option::Some(parts) => basic_from_numbers(
            parse_int_spec(parts.0),
            parse_int_spec(parts.1),
            modifier,
        ),
    }
}

/// The outcome of keep-highest notation once its three segments are read.
pub open spec fn keep_highest_from_numbers(
    count_o: Option<i32>,
    sides_o: Option<i32>,
    keep_o: Option<i32>,
    modifier: i32,
) -> Result<DiceExpression, Seq<char>> {
    match (count_o, sides_o, keep_o) {
        (Option::None, _, _) => Err("Invalid dice count"@),
        (Option::Some(_), Option::None, _) => Err("Invalid die size"@),
        (Option::Some(_), Option::Some(_), Option::None) => Err("Invalid keep count"@),
        (Option::Some(count), Option::Some(sides), Option::Some(keep)) => if count < 1 || sides < 1
            || keep < 1 || keep > count {
            Err("Invalid keep highest parameters"@)
        } else {
            Ok(DiceExpression::KeepHighest { count, sides, keep, modifier })
        },
    }
}

/// The dice segments of keep-highest notation, split around its `d`.
pub open spec fn keep_highest_from_parts(
    head: Seq<char>,
    keep_part: Seq<char>,
    modifier: i32,
) -> Result<DiceExpression, Seq<char>> {
    match split_two(head, seq!['d']) {
        Option::None => Err("Invalid dice notation"@),
        Option::Some(dparts) => keep_highest_from_numbers(
            parse_int_spec(dparts.0),
            parse_int_spec(dparts.1),
            parse_int_spec(keep_part),
            modifier,
        ),
    }
}

/// Keep-highest notation `XdYkN`: exactly one `k` splitting the dice part
/// from the keep count, with `1 <= keep <= count` and positive dice.
pub open spec fn parse_keep_highest_spec(dice: Seq<char>, modifier: i32) -> Result<
    DiceExpression,
    Seq<char>,
> {
    match split_two(dice, seq!['k']) {
        Option::None => Err("Invalid keep highest notation"@),
        Option::Some(parts) => keep_highest_from_parts(parts.0, parts.1, modifier),
    }
}

/// The outcome of keep-lowest notation once its three segments are read.
pub open spec fn keep_lowest_from_numbers(
    count_o: Option<i32>,
    sides_o: Option<i32>,
    keep_o: Option<i32>,
    modifier: i32,
) -> Result<DiceExpression, Seq<char>> {
    match (count_o, sides_o, keep_o) {
        (Option::None, _, _) => Err("Invalid dice count"@),
        (Option::Some(_), Option::None, _) => Err("Invalid die size"@),
        (Option::Some(_), Option::Some(_), Option::None) => Err("Invalid keep count"@),
        (Option::Some(count), Option::Some(sides), Option::Some(keep)) => if count < 1 || sides < 1
            || keep < 1 || keep > count {
            Err("Invalid keep lowest parameters"@)
        } else {
            Ok(DiceExpression::KeepLowest { count, sides, keep, modifier })
        },
    }
}

/// The dice segments of keep-lowest notation, split around its `d`.
pub open spec fn keep_lowest_from_parts(
    head: Seq<char>,
    keep_part: Seq<char>,
    modifier: i32,
) -> Result<DiceExpression, Seq<char>> {
    match split_two(head, seq!['d']) {
        Option::None => Err("Invalid dice notation"@),
        Option::Some(dparts) => keep_lowest_from_numbers(
            parse_int_spec(dparts.0),
            parse_int_spec(dparts.1),
            parse_int_spec(keep_part),
            modifier,
        ),
    }
}

/// Keep-lowest notation `XdYklN`, in the manner of
/// [`parse_keep_highest_spec`] with delimiter `kl`.
pub open spec fn parse_keep_lowest_spec(dice: Seq<char>, modifier: i32) -> Result<
    DiceExpression,
    Seq<char>,
> {
    match split_two(dice, seq!['k', 'l']) {
        Option::None => Err("Invalid keep lowest notation"@),
        Option::Some(parts) => keep_lowest_from_parts(parts.0, parts.1, modifier),
    }
}

/// The outcome of exploding notation once its two segments are read.
pub open spec fn exploding_from_numbers(
    count_o: Option<i32>,
    sides_o: Option<i32>,
    modifier: i32,
) -> Result<DiceExpression, Seq<char>> {
    match (count_o, sides_o) {
        (Option::None, _) => Err("Invalid dice count"@),
        (Option::Some(_), Option::None) => Err("Invalid die size"@),
        (Option::Some(count), Option::Some(sides)) => if count < 1 || sides < 1 {
            Err("Dice count and sides must be positive"@)
        } else {
            Ok(DiceExpression::Exploding { count, sides, modifier })
        },
    }
}

/// The dice part of exploding notation, split around its `d`.
pub open spec fn exploding_from_head(head: Seq<char>, modifier: i32) -> Result<
    DiceExpression,
    Seq<char>,
> {
    match split_two(head, seq!['d']) {
        Option::None => Err("Invalid dice notation"@),
        Option::Some(dparts) => exploding_from_numbers(
            parse_int_spec(dparts.0),
            parse_int_spec(dparts.1),
            modifier,
        ),
    }
}

/// Exploding notation `XdY!`: a single `!` standing last, around a basic
/// dice part with positive count and die size.
pub open spec fn parse_exploding_spec(dice: Seq<char>, modifier: i32) -> Result<
    DiceExpression,
    Seq<char>,
> {
    match split_two(dice, seq!['!']) {
        Option::None => Err("Invalid exploding dice notation"@),
        Option::Some(parts) => if parts.1.len() != 0 {
            Err("Invalid exploding dice notation"@)
        } else {
            exploding_from_head(parts.0, modifier)
        },
    }
}

/// The die size of advantage or disadvantage notation, read from the
/// fragment left between the stripped `(d` prefix and `)` suffix.
pub open spec fn adv_sides_from_number(sides_o: Option<i32>, highest: bool) -> Result<
    i32,
    Seq<char>,
> {
    match sides_o {
        Option::Some(sides) => if sides >= 1 {
            Ok(sides)
        } else if highest {
            Err("Invalid die size for advantage"@)
        } else {
            Err("Invalid die size for disadvantage"@)
        },
        Option::None => if highest {
            Err("Invalid die size for advantage"@)
        } else {
            Err("Invalid die size for disadvantage"@)
        },
    }
}

/// Advantage notation: the `adv` prefix (stripped, repeatedly), a
/// trailing modifier, and an optional die size of the shape `(dN)` with
/// positive `N`; the die size defaults to twenty.
pub open spec fn parse_advantage_spec(s: Seq<char>) -> Result<DiceExpression, Seq<char>> {
    let rest = strip_prefix_all(s, seq!['a', 'd', 'v']);
    let dm = extract_modifier_spec(rest);
    if dm.0.len() == 0 {
        Ok(DiceExpression::Advantage { sides: 20, modifier: dm.1 })
    } else {
        let trimmed = strip_suffix_all_char(strip_prefix_all(dm.0, seq!['(', 'd']), ')');
        match adv_sides_from_number(parse_int_spec(trimmed), true) {
            Result::Ok(sides) => Ok(DiceExpression::Advantage { sides, modifier: dm.1 }),
            Result::Err(msg) => Err(msg),
        }
    }
}

/// Disadvantage notation, in the manner of [`parse_advantage_spec`] with
/// the `dis` prefix.
pub open spec fn parse_disadvantage_spec(s: Seq<char>) -> Result<DiceExpression, Seq<char>> {
    let rest = strip_prefix_all(s, seq!['d', 'i', 's']);
    let dm = extract_modifier_spec(rest);
    if dm.0.len() == 0 {
        Ok(DiceExpression::Disadvantage { sides: 20, modifier: dm.1 })
    } else {
        let trimmed = strip_suffix_all_char(strip_prefix_all(dm.0, seq!['(', 'd']), ')');
        match adv_sides_from_number(parse_int_spec(trimmed), false) {
            Result::Ok(sides) => Ok(DiceExpression::Disadvantage { sides, modifier: dm.1 }),
            Result::Err(msg) => Err(msg),
        }
    }
}

/// The whole grammar: the input in normal form is classified by prefix
/// (`adv`, `dis`) and then by contained delimiter (`!`, `kl`, `k`), in
/// that priority order, with basic `XdY` notation as the remaining case.
pub open spec fn spec_parse(raw: Seq<char>) -> Result<DiceExpression, Seq<char>> {
    let s = normalize(raw);
    if is_match_at(s, seq!['a', 'd', 'v'], 0) {
        parse_advantage_spec(s)
    } else if is_match_at(s, seq!['d', 'i', 's'], 0) {
        parse_disadvantage_spec(s)
    } else {
        let dm = extract_modifier_spec(s);
        if contains_seq(dm.0, seq!['!']) {
            parse_exploding_spec(dm.0, dm.1)
        } else if contains_seq(dm.0, seq!['k', 'l']) {
            parse_keep_lowest_spec(dm.0, dm.1)
        } else if contains_seq(dm.0, seq!['k']) {
            parse_keep_highest_spec(dm.0, dm.1)
        } else {
            parse_basic_spec(dm.0, dm.1)
        }
    }
}

/// A segment holding no `-` never denotes a negative integer.
proof fn lemma_parse_no_minus_nonneg(s: Seq<char>)
    requires
        forall|i: int| 0 <= i < s.len() ==> s[i] != '-',
        parse_int_spec(s) is Some,
    ensures
        parse_int_spec(s)->Some_0 >= 0,
{
    let has_sign = s.len() > 0 && (s[0] == '+' || s[0] == '-');
    let digits = if has_sign {
        s.drop_first()
    } else {
        s
    };
    lemma_digits_value_nonneg(digits);
}

/// The dice part and trailing signed modifier of an input, exactly as
/// [`extract_modifier_spec`] states them.
pub fn extract_modifier(v: &Vec<char>) -> (r: (Vec<char>, i32))
    ensures
        r.0@ == extract_modifier_spec(v@).0,
        r.1 == extract_modifier_spec(v@).1,
{
    match rfind(v, '+') {
        Option::Some(p) => {
            proof {
                lemma_rfind_char(v@, '+');
                vstd::std_specs::vec::axiom_spec_len(v);
            }
            let rest = subrange_chars(v, p + 1, v.len());
            let m: i32 = match parse_int(&rest) {
                Option::Some(x) => x,
                Option::None => 0,
            };
            let head = subrange_chars(v, 0, p);
            (head, m)
        },
        Option::None => match rfind(v, '-') {
            Option::Some(p) => {
                proof {
                    lemma_rfind_char(v@, '-');
                    vstd::std_specs::vec::axiom_spec_len(v);
                }
                let rest = subrange_chars(v, p + 1, v.len());
                let m: i32 = match parse_int(&rest) {
                    Option::Some(x) => {
                        proof {
                            assert(forall|i: int| 0 <= i < rest@.len() ==> rest@[i] != '-');
                            lemma_parse_no_minus_nonneg(rest@);
                        }
                        -x
                    },
                    Option::None => 0,
                };
                let head = subrange_chars(v, 0, p);
                (head, m)
            },
            Option::None => {
                let copy = subrange_chars(v, 0, v.len());
                proof {
                    assert(v@.subrange(0, v@.len() as int) =~= v@);
                }
                (copy, 0)
            },
        },
    }
}

/// Basic notation, exactly as [`parse_basic_spec`] states it.
pub fn parse_basic(dice_part: &Vec<char>, modifier: i32) -> (r: Result<DiceExpression, String>)
    ensures
        matches_outcome(r, parse_basic_spec(dice_part@, modifier)),
{
    let d = pat1('d');
    match split_once(dice_part, &d) {
        Option::None => Err("Invalid dice notation. Use format: XdY".to_owned()),
        Option::Some(parts) => match parse_int(&parts.0) {
            Option::None => Err("Invalid dice count".to_owned()),
            Option::Some(count) => match parse_int(&parts.1) {
                Option::None => Err("Invalid die size".to_owned()),
                Option::Some(sides) => {
                    if count < 1 || sides < 1 {
                        Err("Dice count and sides must be positive".to_owned())
                    } else {
                        Ok(DiceExpression::Basic { count, sides, modifier })
                    }
                },
            },
        },
    }
}

/// Keep-highest notation, exactly as [`parse_keep_highest_spec`] states it.
pub fn parse_keep_highest(dice_part: &Vec<char>, modifier: i32) -> (r: Result<
    DiceExpression,
    String,
>)
    ensures
        matches_outcome(r, parse_keep_highest_spec(dice_part@, modifier)),
{
    let k = pat1('k');
    let parts = match split_once(dice_part, &k) {
        Option::None => {
            return Err("Invalid keep highest notation".to_owned());
        },
        Option::Some(parts) => parts,
    };
    let d = pat1('d');
    let dparts = match split_once(&parts.0, &d) {
        Option::None => {
            return Err("Invalid dice notation".to_owned());
        },
        Option::Some(dparts) => dparts,
    };
    let count = match parse_int(&dparts.0) {
        Option::None => {
            return Err("Invalid dice count".to_owned());
        },
        Option::Some(c) => c,
    };
    let sides = match parse_int(&dparts.1) {
        Option::None => {
            return Err("Invalid die size".to_owned());
        },
        Option::Some(s) => s,
    };
    let keep = match parse_int(&parts.1) {
        Option::None => {
            return Err("Invalid keep count".to_owned());
        },
        Option::Some(kc) => kc,
    };
    if count < 1 || sides < 1 || keep < 1 || keep > count {
        Err("Invalid keep highest parameters".to_owned())
    } else {
        Ok(DiceExpression::KeepHighest { count, sides, keep, modifier })
    }
}

/// Keep-lowest notation, exactly as [`parse_keep_lowest_spec`] states it.
pub fn parse_keep_lowest(dice_part: &Vec<char>, modifier: i32) -> (r: Result<
    DiceExpression,
    String,
>)
    ensures
        matches_outcome(r, parse_keep_lowest_spec(dice_part@, modifier)),
{
    let kl = pat2('k', 'l');
    let parts = match split_once(dice_part, &kl) {
        Option::None => {
            return Err("Invalid keep lowest notation".to_owned());
        },
        Option::Some(parts) => parts,
    };
    let d = pat1('d');
    let dparts = match split_once(&parts.0, &d) {
        Option::None => {
            return Err("Invalid dice notation".to_owned());
        },
        Option::Some(dparts) => dparts,
    };
    let count = match parse_int(&dparts.0) {
        Option::None => {
            return Err("Invalid dice count".to_owned());
        },
        Option::Some(c) => c,
    };
    let sides = match parse_int(&dparts.1) {
        Option::None => {
            return Err("Invalid die size".to_owned());
        },
        Option::Some(s) => s,
    };
    let keep = match parse_int(&parts.1) {
        Option::None => {
            return Err("Invalid keep count".to_owned());
        },
        Option::Some(kc) => kc,
    };
    if count < 1 || sides < 1 || keep < 1 || keep > count {
        Err("Invalid keep lowest parameters".to_owned())
    } else {
        Ok(DiceExpression::KeepLowest { count, sides, keep, modifier })
    }
}

/// Exploding notation, exactly as [`parse_exploding_spec`] states it.
pub fn parse_exploding(dice_part: &Vec<char>, modifier: i32) -> (r: Result<DiceExpression, String>)
    ensures
        matches_outcome(r, parse_exploding_spec(dice_part@, modifier)),
{
    let bang = pat1('!');
    let parts = match split_once(dice_part, &bang) {
        Option::None => {
            return Err("Invalid exploding dice notation".to_owned());
        },
        Option::Some(parts) => parts,
    };
    if parts.1.len() != 0 {
        return Err("Invalid exploding dice notation".to_owned());
    }
    let d = pat1('d');
    let dparts = match split_once(&parts.0, &d) {
        Option::None => {
            return Err("Invalid dice notation".to_owned());
        },
        Option::Some(dparts) => dparts,
    };
    let count = match parse_int(&dparts.0) {
        Option::None => {
            return Err("Invalid dice count".to_owned());
        },
        Option::Some(c) => c,
    };
    let sides = match parse_int(&dparts.1) {
        Option::None => {
            return Err("Invalid die size".to_owned());
        },
        Option::Some(s) => s,
    };
    if count < 1 || sides < 1 {
        Err("Dice count and sides must be positive".to_owned())
    } else {
        Ok(DiceExpression::Exploding { count, sides, modifier })
    }
}

/// Advantage notation, exactly as [`parse_advantage_spec`] states it.
pub fn parse_advantage(input: &Vec<char>) -> (r: Result<DiceExpression, String>)
    ensures
        matches_outcome(r, parse_advantage_spec(input@)),
{
    let prefix = pat3('a', 'd', 'v');
    let rest = strip_prefix_repeat(input, &prefix);
    let dm = extract_modifier(&rest);
    if dm.0.len() == 0 {
        return Ok(DiceExpression::Advantage { sides: 20, modifier: dm.1 });
    }
    let open_d = pat2('(', 'd');
    let stripped = strip_prefix_repeat(&dm.0, &open_d);
    let trimmed = strip_suffix_repeat(&stripped, ')');
    match parse_int(&trimmed) {
        Option::Some(sides) => {
            if sides >= 1 {
                Ok(DiceExpression::Advantage { sides, modifier: dm.1 })
            } else {
                Err("Invalid die size for advantage".to_owned())
            }
        },
        Option::None => Err("Invalid die size for advantage".to_owned()),
    }
}

/// Disadvantage notation, exactly as [`parse_disadvantage_spec`] states it.
pub fn parse_disadvantage(input: &Vec<char>) -> (r: Result<DiceExpression, String>)
    ensures
        matches_outcome(r, parse_disadvantage_spec(input@)),
{
    let prefix = pat3('d', 'i', 's');
    let rest = strip_prefix_repeat(input, &prefix);
    let dm = extract_modifier(&rest);
    if dm.0.len() == 0 {
        return Ok(DiceExpression::Disadvantage { sides: 20, modifier: dm.1 });
    }
    let open_d = pat2('(', 'd');
    let stripped = strip_prefix_repeat(&dm.0, &open_d);
    let trimmed = strip_suffix_repeat(&stripped, ')');
    match parse_int(&trimmed) {
        Option::Some(sides) => {
            if sides >= 1 {
                Ok(DiceExpression::Disadvantage { sides, modifier: dm.1 })
            } else {
                Err("Invalid die size for disadvantage".to_owned())
            }
        },
        Option::None => Err("Invalid die size for disadvantage".to_owned()),
    }
}

/// Every expression the grammar accepts is well formed.
pub proof fn lemma_spec_parse_wf(raw: Seq<char>)
    ensures
        spec_parse(raw) is Ok ==> spec_parse(raw)->Ok_0.wf(),
{
}

/// Parse a dice notation string into an expression, or report why it is
/// not one. The outcome is exactly [`spec_parse`] applied to the input's
/// characters; in particular every returned expression is well formed and
/// equal inputs always parse alike.
pub fn parse(input: &str) -> (r: Result<DiceExpression, String>)
    ensures
        matches_outcome(r, spec_parse(input@)),
        r is Ok ==> r->Ok_0.wf(),
{
    let chars = normalized_chars(input);
    proof {
        lemma_spec_parse_wf(input@);
    }
    let adv = pat3('a', 'd', 'v');
    if chars.len() >= 3 && match_at(&chars, &adv, 0) {
        return parse_advantage(&chars);
    }
    let dis = pat3('d', 'i', 's');
    if chars.len() >= 3 && match_at(&chars, &dis, 0) {
        return parse_disadvantage(&chars);
    }
    let dm = extract_modifier(&chars);
    let bang = pat1('!');
    if contains_sub(&dm.0, &bang) {
        return parse_exploding(&dm.0, dm.1);
    }
    let kl = pat2('k', 'l');
    if contains_sub(&dm.0, &kl) {
        return parse_keep_lowest(&dm.0, dm.1);
    }
    let k = pat1('k');
    if contains_sub(&dm.0, &k) {
        return parse_keep_highest(&dm.0, dm.1);
    }
    parse_basic(&dm.0, dm.1)
}

/// The canonical notation of an expression, in the same grammar the
/// parser reads: `XdY`, `XdYkN`, `XdYklN`, `adv(dY)`, `dis(dY)` or `XdY!`,
/// each followed by the modifier with its sign always written.
pub open spec fn spec_notation(e: DiceExpression) -> Seq<char> {
    match e {
        DiceExpression::Basic { count, sides, modifier } => dec_int(count as int) + seq!['d']
            + dec_int(sides as int) + dec_signed(modifier as int),
        DiceExpression::KeepHighest { count, sides, keep, modifier } => dec_int(count as int)
            + seq!['d'] + dec_int(sides as int) + seq!['k'] + dec_int(keep as int) + dec_signed(
            modifier as int,
        ),
        DiceExpression::KeepLowest { count, sides, keep, modifier } => dec_int(count as int)
            + seq!['d'] + dec_int(sides as int) + seq!['k', 'l'] + dec_int(keep as int)
            + dec_signed(modifier as int),
        DiceExpression::Advantage { sides, modifier } => seq!['a', 'd', 'v', '(', 'd'] + dec_int(
            sides as int,
        ) + seq![')'] + dec_signed(modifier as int),
        DiceExpression::Disadvantage { sides, modifier } => seq!['d', 'i', 's', '(', 'd'] + dec_int(
            sides as int,
        ) + seq![')'] + dec_signed(modifier as int),
        DiceExpression::Exploding { count, sides, modifier } => dec_int(count as int) + seq!['d']
            + dec_int(sides as int) + seq!['!'] + dec_signed(modifier as int),
    }
}

impl DiceExpression {
    /// The expression written back out in its canonical notation,
    /// exactly as [`spec_notation`] states it.
    pub fn to_notation(&self) -> (s: String)
        ensures
            s@ == spec_notation(*self),
    {
        let mut s = String::new();
        match *self {
            DiceExpression::Basic { count, sides, modifier } => {
                append_int(&mut s, count);
                s.append("d");
                append_int(&mut s, sides);
                append_signed(&mut s, modifier);
                proof {
                    reveal_strlit("d");
                    assert(s@ =~= spec_notation(*self));
                }
            },
            DiceExpression::KeepHighest { count, sides, keep, modifier } => {
                append_int(&mut s, count);
                s.append("d");
                append_int(&mut s, sides);
                s.append("k");
                append_int(&mut s, keep);
                append_signed(&mut s, modifier);
                proof {
                    reveal_strlit("d");
                    reveal_strlit("k");
                    assert(s@ =~= spec_notation(*self));
                }
            },
            DiceExpression::KeepLowest { count, sides, keep, modifier } => {
                append_int(&mut s, count);
                s.append("d");
                append_int(&mut s, sides);
                s.append("kl");
                append_int(&mut s, keep);
                append_signed(&mut s, modifier);
                proof {
                    reveal_strlit("d");
                    reveal_strlit("kl");
                    assert(s@ =~= spec_notation(*self));
                }
            },
            DiceExpression::Advantage { sides, modifier } => {
                s.append("adv(d");
                append_int(&mut s, sides);
                s.append(")");
                append_signed(&mut s, modifier);
                proof {
                    reveal_strlit("adv(d");
                    reveal_strlit(")");
                    assert(s@ =~= spec_notation(*self));
                }
            },
            DiceExpression::Disadvantage { sides, modifier } => {
                s.append("dis(d");
                append_int(&mut s, sides);
                s.append(")");
                append_signed(&mut s, modifier);
                proof {
                    reveal_strlit("dis(d");
                    reveal_strlit(")");
                    assert(s@ =~= spec_notation(*self));
                }
            },
            DiceExpression::Exploding { count, sides, modifier } => {
                append_int(&mut s, count);
                s.append("d");
                append_int(&mut s, sides);
                s.append("!");
                append_signed(&mut s, modifier);
                proof {
                    reveal_strlit("d");
                    reveal_strlit("!");
                    assert(s@ =~= spec_notation(*self));
                }
            },
        }
        s
    }
}

/// The parse outcome is a function of the input alone: two parses of
/// equal character sequences agree, variant for variant and field for
/// field.
pub proof fn lemma_parse_deterministic(
    raw: Seq<char>,
    r1: Result<DiceExpression, String>,
    r2: Result<DiceExpression, String>,
)
    requires
        matches_outcome(r1, spec_parse(raw)),
        matches_outcome(r2, spec_parse(raw)),
    ensures
        r1 is Ok <==> r2 is Ok,
        r1 is Ok ==> r1->Ok_0 == r2->Ok_0,
        r1 is Err ==> r1->Err_0@ == r2->Err_0@,
{
}


} // verus!
