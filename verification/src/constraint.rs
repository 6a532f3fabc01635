//! The constraint engine.
//!
//! One constraint is parsed from one token against the active value
//! representation.  A scan keeps an address when every constraint of the
//! command holds (logical AND).  Constraints compare the candidate value
//! against a literal, against a range, or against the candidate's prior
//! reading at the same address.
//!
//! All comparisons go through an order key: a `u64` that, within one
//! representation, orders values as the representation does.  Unsigned
//! values map to themselves, signed values shift by half the width, and
//! floating-point values map to the IEEE 754 total order of their bit
//! patterns (so a negative-sign encoding sorts below a positive one, and
//! ordering is total even on the payloads that have no numeric order).
//!
//! Grammar, one token per constraint:
//!
//! | token      | meaning                                   |
//! |------------|-------------------------------------------|
//! | `+`        | increased since the prior reading         |
//! | `-`        | decreased since the prior reading         |
//! | `=`        | unchanged since the prior reading         |
//! | `!`        | changed since the prior reading           |
//! | `+N`       | increased by exactly `N`                  |
//! | `-N`       | decreased by exactly `N`                  |
//! | `>=N` etc. | ordering against the literal `N`          |
//! | `=N`, `!N` | equal / not equal to the literal `N`      |
//! | `A..B`     | within the inclusive range `[A, B]`       |
//! | `N`        | equal to the literal `N`                  |
//!
//! Exact-delta constraints are not available for the floating-point
//! representations, since the library performs no floating-point
//! arithmetic; the remaining forms work on any representation once the
//! embedder has supplied the literal's bits.

use vstd::prelude::*;
use crate::Error;
use crate::value::Value;

verus! {

/// An ordering relation against a literal.
#[derive(Debug, Clone, Copy, PartialEq, Eq, Structural)]
pub enum CmpKind {
    Equal,
    NotEqual,
    Less,
    Greater,
    LessEq,
    GreaterEq,
}

/// One predicate over a candidate value and, for the delta forms, its
/// prior reading at the same address.
#[derive(Debug, Clone, Copy, PartialEq, Eq, Structural)]
pub enum Constraint {
    /// Ordering against a literal of the active representation.
    Compare { op: CmpKind, operand: Value },
    /// Membership of the inclusive range `[lo, hi]`.
    Within { lo: Value, hi: Value },
    /// Strictly greater than the prior reading.
    Increased,
    /// Strictly less than the prior reading.
    Decreased,
    /// Greater than the prior reading by exactly `delta`.
    IncreasedBy { delta: Value },
    /// Less than the prior reading by exactly `delta`.
    DecreasedBy { delta: Value },
    /// Different from the prior reading.
    Changed,
    /// Equal to the prior reading.
    Unchanged,
}

impl Value {
    /// Order key of the value: within one representation, keys order as
    /// the values do, and equal keys mean equal values.
    pub open spec fn spec_key(self) -> int {
        match self {
            Value::F32(b) => if b < 0x8000_0000 {
                b + 0x8000_0000
            } else {
                0xFFFF_FFFF - b
            },
            Value::F64(b) => if b < 0x8000_0000_0000_0000 {
                b + 0x8000_0000_0000_0000
            } else {
                0xFFFF_FFFF_FFFF_FFFF - b
            },
            Value::U8(x) => x as int,
            Value::U16(x) => x as int,
            Value::U32(x) => x as int,
            Value::U64(x) => x as int,
            Value::I8(x) => x + 0x80,
            Value::I16(x) => x + 0x8000,
            Value::I32(x) => x + 0x8000_0000,
            Value::I64(x) => x + 0x8000_0000_0000_0000,
        }
    }

    /// The mathematical value of an integer representation; the delta
    /// constraints are defined over it.
    pub open spec fn spec_int_val(self) -> int {
        match self {
            Value::F32(_) => 0,
            Value::F64(_) => 0,
            Value::U8(x) => x as int,
            Value::U16(x) => x as int,
            Value::U32(x) => x as int,
            Value::U64(x) => x as int,
            Value::I8(x) => x as int,
            Value::I16(x) => x as int,
            Value::I32(x) => x as int,
            Value::I64(x) => x as int,
        }
    }

    /// Computes the order key.
    pub fn key(&self) -> (r: u64)
        ensures
            r as int == self.spec_key(),
    {
        match self {
            Value::F32(b) => {
                if *b < 0x8000_0000 {
                    *b as u64 + 0x8000_0000
                } else {
                    (0xFFFF_FFFFu32 - *b) as u64
                }
            },
            Value::F64(b) => {
                if *b < 0x8000_0000_0000_0000 {
                    *b + 0x8000_0000_0000_0000
                } else {
                    0xFFFF_FFFF_FFFF_FFFF - *b
                }
            },
            Value::U8(x) => *x as u64,
            Value::U16(x) => *x as u64,
            Value::U32(x) => *x as u64,
            Value::U64(x) => *x,
            Value::I8(x) => (*x as i64 + 0x80) as u64,
            Value::I16(x) => (*x as i64 + 0x8000) as u64,
            Value::I32(x) => (*x as i64 + 0x8000_0000) as u64,
            Value::I64(x) => {
                if *x >= 0 {
                    *x as u64 + 0x8000_0000_0000_0000
                } else {
                    ((*x + 0x7FFF_FFFF_FFFF_FFFF) + 1) as u64
                }
            },
        }
    }
}

/// A decoded value carries the representation it was decoded in.
pub proof fn lemma_decode_kind(kind: Value, s: Seq<u8>)
    ensures
        Value::spec_decode(kind, s).same_kind(kind),
{
}

/// Fitting a representation is a property of the representation alone:
/// a constraint fit for one value fits every value of the same
/// representation.
pub proof fn lemma_wf_same_kind(c: Constraint, a: Value, b: Value)
    requires
        c.wf_for(a),
        b.same_kind(a),
    ensures
        c.wf_for(b),
{
}

/// Within one representation, equal keys mean equal values and the key
/// order is the representation's order.
pub proof fn lemma_key_injective(a: Value, b: Value)
    requires
        a.same_kind(b),
    ensures
        (a.spec_key() == b.spec_key()) <==> a == b,
{
}

/// Whether an ordering relation holds between two order keys.
pub open spec fn spec_cmp(op: CmpKind, a: int, b: int) -> bool {
    match op {
        CmpKind::Equal => a == b,
        CmpKind::NotEqual => a != b,
        CmpKind::Less => a < b,
        CmpKind::Greater => a > b,
        CmpKind::LessEq => a <= b,
        CmpKind::GreaterEq => a >= b,
    }
}

impl Constraint {
    /// The constraint fits candidates of the representation `kind`: its
    /// operands carry the same representation, and the exact-delta forms
    /// are not used with the floating-point representations.
    pub open spec fn wf_for(self, kind: Value) -> bool {
        match self {
            Constraint::Compare { op, operand } => operand.same_kind(kind),
            Constraint::Within { lo, hi } => lo.same_kind(kind) && hi.same_kind(kind),
            Constraint::IncreasedBy { delta } => delta.same_kind(kind) && !(kind is F32)
                && !(kind is F64),
            Constraint::DecreasedBy { delta } => delta.same_kind(kind) && !(kind is F32)
                && !(kind is F64),
            Constraint::Increased => true,
            Constraint::Decreased => true,
            Constraint::Changed => true,
            Constraint::Unchanged => true,
        }
    }

    /// Whether the constraint holds of a candidate and its prior
    /// reading.  The forms that need a prior reading never hold where
    /// none exists.
    pub open spec fn spec_check(self, cur: Value, prev: Option<Value>) -> bool {
        match self {
            Constraint::Compare { op, operand } => spec_cmp(op, cur.spec_key(), operand.spec_key()),
            Constraint::Within { lo, hi } => lo.spec_key() <= cur.spec_key() <= hi.spec_key(),
            Constraint::Increased => prev is Some && cur.spec_key() > prev.unwrap().spec_key(),
            Constraint::Decreased => prev is Some && cur.spec_key() < prev.unwrap().spec_key(),
            Constraint::IncreasedBy { delta } => prev is Some && cur.spec_key()
                == prev.unwrap().spec_key() + delta.spec_int_val(),
            Constraint::DecreasedBy { delta } => prev is Some && cur.spec_key()
                == prev.unwrap().spec_key() - delta.spec_int_val(),
            Constraint::Changed => prev is Some && cur.spec_key() != prev.unwrap().spec_key(),
            Constraint::Unchanged => prev is Some && cur.spec_key() == prev.unwrap().spec_key(),
        }
    }

    /// Exec mirror of [`Constraint::wf_for`], for callers outside the
    /// library that must establish `check`'s precondition.
    pub fn valid_for(&self, kind: &Value) -> (r: bool)
        ensures
            r == self.wf_for(*kind),
    {
        match self {
            Constraint::Compare { op: _, operand } => operand.same_kind_exec(kind),
            Constraint::Within { lo, hi } => lo.same_kind_exec(kind) && hi.same_kind_exec(kind),
            Constraint::IncreasedBy { delta } => delta.same_kind_exec(kind) && !matches!(
                kind,
                Value::F32(_),
            ) && !matches!(kind, Value::F64(_)),
            Constraint::DecreasedBy { delta } => delta.same_kind_exec(kind) && !matches!(
                kind,
                Value::F32(_),
            ) && !matches!(kind, Value::F64(_)),
            Constraint::Increased => true,
            Constraint::Decreased => true,
            Constraint::Changed => true,
            Constraint::Unchanged => true,
        }
    }

    /// Evaluates the constraint on a candidate and its prior reading.
    pub fn check(&self, cur: Value, prev: Option<Value>) -> (r: bool)
        requires
            self.wf_for(cur),
        ensures
            r == self.spec_check(cur, prev),
    {
        match self {
            Constraint::Compare { op, operand } => {
                let kc = cur.key();
                let ko = operand.key();
                match op {
                    CmpKind::Equal => kc == ko,
                    CmpKind::NotEqual => kc != ko,
                    CmpKind::Less => kc < ko,
                    CmpKind::Greater => kc > ko,
                    CmpKind::LessEq => kc <= ko,
                    CmpKind::GreaterEq => kc >= ko,
                }
            },
            Constraint::Within { lo, hi } => {
                let kc = cur.key();
                lo.key() <= kc && kc <= hi.key()
            },
            Constraint::Increased => match prev {
                Some(p) => cur.key() > p.key(),
                None => false,
            },
            Constraint::Decreased => match prev {
                Some(p) => cur.key() < p.key(),
                None => false,
            },
            Constraint::IncreasedBy { delta } => match prev {
                Some(p) => {
                    let (neg, mag) = delta.delta_parts();
                    let kp = p.key();
                    if neg {
                        match kp.checked_sub(mag) {
                            Some(t) => cur.key() == t,
                            None => false,
                        }
                    } else {
                        match kp.checked_add(mag) {
                            Some(t) => cur.key() == t,
                            None => false,
                        }
                    }
                },
                None => false,
            },
            Constraint::DecreasedBy { delta } => match prev {
                Some(p) => {
                    let (neg, mag) = delta.delta_parts();
                    let kp = p.key();
                    if neg {
                        match kp.checked_add(mag) {
                            Some(t) => cur.key() == t,
                            None => false,
                        }
                    } else {
                        match kp.checked_sub(mag) {
                            Some(t) => cur.key() == t,
                            None => false,
                        }
                    }
                },
                None => false,
            },
            Constraint::Changed => match prev {
                Some(p) => cur.key() != p.key(),
                None => false,
            },
            Constraint::Unchanged => match prev {
                Some(p) => cur.key() == p.key(),
                None => false,
            },
        }
    }

    /// Whether every constraint of a command holds: a scan keeps an
    /// address only when all do.
    pub open spec fn spec_check_all(cs: Seq<Constraint>, cur: Value, prev: Option<Value>) -> bool {
        forall|i: int| 0 <= i < cs.len() ==> #[trigger] cs[i].spec_check(cur, prev)
    }

    /// Evaluates all constraints of a command, conjunctively.
    pub fn check_all(cs: &Vec<Constraint>, cur: Value, prev: Option<Value>) -> (r: bool)
        requires
            forall|i: int| 0 <= i < cs@.len() ==> (#[trigger] cs@[i]).wf_for(cur),
        ensures
            r == Constraint::spec_check_all(cs@, cur, prev),
    {
        let mut i: usize = 0;
        while i < cs.len()
            invariant
                0 <= i <= cs@.len(),
                forall|j: int| 0 <= j < cs@.len() ==> (#[trigger] cs@[j]).wf_for(cur),
                forall|j: int| 0 <= j < i ==> #[trigger] cs@[j].spec_check(cur, prev),
            decreases cs@.len() - i,
        {
            if !cs[i].check(cur, prev) {
                return false;
            }
            i = i + 1;
        }
        true
    }
}

/// First position where `..` occurs in `s` at or after `i`.
pub open spec fn find_dotdot(s: Seq<u8>, i: int) -> Option<int>
    decreases s.len() - i,
{
    if i < 0 || i + 2 > s.len() {
        None
    } else if s[i] == 0x2e && s[i + 1] == 0x2e {
        Some(i)
    } else {
        find_dotdot(s, i + 1)
    }
}

/// A comparison constraint built from a literal token, when the literal
/// parses in the representation of `kind`.
pub open spec fn spec_cmp_lit(op: CmpKind, kind: Value, lit: Seq<u8>) -> crate::Result<Constraint> {
    match Value::spec_update(kind, lit) {
        Ok(v) => Ok(Constraint::Compare { op, operand: v }),
        Err(e) => Err(e),
    }
}

/// The constraint denoted by one token in the representation of `kind`;
/// see the module documentation for the grammar.
#[verifier::opaque]
pub open spec fn spec_parse(token: Seq<u8>, kind: Value) -> crate::Result<Constraint> {
    if token.len() == 1 && token[0] == 0x2b {
        Ok(Constraint::Increased)
    } else if token.len() == 1 && token[0] == 0x2d {
        Ok(Constraint::Decreased)
    } else if token.len() == 1 && token[0] == 0x3d {
        Ok(Constraint::Unchanged)
    } else if token.len() == 1 && token[0] == 0x21 {
        Ok(Constraint::Changed)
    } else if token.len() >= 2 && token[0] == 0x3e && token[1] == 0x3d {
        spec_cmp_lit(CmpKind::GreaterEq, kind, token.subrange(2, token.len() as int))
    } else if token.len() >= 2 && token[0] == 0x3c && token[1] == 0x3d {
        spec_cmp_lit(CmpKind::LessEq, kind, token.subrange(2, token.len() as int))
    } else if token.len() >= 1 && token[0] == 0x3e {
        spec_cmp_lit(CmpKind::Greater, kind, token.subrange(1, token.len() as int))
    } else if token.len() >= 1 && token[0] == 0x3c {
        spec_cmp_lit(CmpKind::Less, kind, token.subrange(1, token.len() as int))
    } else if token.len() >= 1 && token[0] == 0x3d {
        spec_cmp_lit(CmpKind::Equal, kind, token.subrange(1, token.len() as int))
    } else if token.len() >= 1 && token[0] == 0x21 {
        spec_cmp_lit(CmpKind::NotEqual, kind, token.subrange(1, token.len() as int))
    } else if token.len() >= 1 && token[0] == 0x2b {
        match Value::spec_update(kind, token.subrange(1, token.len() as int)) {
            Ok(v) => Ok(Constraint::IncreasedBy { delta: v }),
            Err(e) => Err(e),
        }
    } else if token.len() >= 1 && token[0] == 0x2d {
        match Value::spec_update(kind, token.subrange(1, token.len() as int)) {
            Ok(v) => Ok(Constraint::DecreasedBy { delta: v }),
            Err(e) => Err(e),
        }
    } else {
        match find_dotdot(token, 0) {
            Some(i) => match Value::spec_update(kind, token.subrange(0, i)) {
                Ok(lo) => match Value::spec_update(kind, token.subrange(i + 2, token.len() as int)) {
                    Ok(hi) => Ok(Constraint::Within { lo, hi }),
                    Err(e) => Err(e),
                },
                Err(e) => Err(e),
            },
            None => match Value::spec_update(kind, token) {
                Ok(v) => Ok(Constraint::Compare { op: CmpKind::Equal, operand: v }),
                Err(e) => Err(e),
            },
        }
    }
}

impl Constraint {
    /// Parses one constraint token against the active representation;
    /// see the module documentation for the grammar.  A parsed
    /// constraint always fits candidates of that representation.
    pub fn from_str_value(token: &[u8], kind: Value) -> (r: crate::Result<Constraint>)
        ensures
            r == spec_parse(token@, kind),
            r matches Ok(c) ==> c.wf_for(kind),
    {
        proof {
            reveal(spec_parse);
            lemma_spec_parse_wf(token@, kind);
        }
        let n = token.len();
        if n == 1 && token[0] == 0x2b {
            Ok(Constraint::Increased)
        } else if n == 1 && token[0] == 0x2d {
            Ok(Constraint::Decreased)
        } else if n == 1 && token[0] == 0x3d {
            Ok(Constraint::Unchanged)
        } else if n == 1 && token[0] == 0x21 {
            Ok(Constraint::Changed)
        } else if n >= 2 && token[0] == 0x3e && token[1] == 0x3d {
            Self::cmp_lit(CmpKind::GreaterEq, kind, &token[2..n])
        } else if n >= 2 && token[0] == 0x3c && token[1] == 0x3d {
            Self::cmp_lit(CmpKind::LessEq, kind, &token[2..n])
        } else if n >= 1 && token[0] == 0x3e {
            Self::cmp_lit(CmpKind::Greater, kind, &token[1..n])
        } else if n >= 1 && token[0] == 0x3c {
            Self::cmp_lit(CmpKind::Less, kind, &token[1..n])
        } else if n >= 1 && token[0] == 0x3d {
            Self::cmp_lit(CmpKind::Equal, kind, &token[1..n])
        } else if n >= 1 && token[0] == 0x21 {
            Self::cmp_lit(CmpKind::NotEqual, kind, &token[1..n])
        } else if n >= 1 && token[0] == 0x2b {
            let mut v = kind;
            match v.update_str(&token[1..n]) {
                Ok(()) => Ok(Constraint::IncreasedBy { delta: v }),
                Err(e) => Err(e),
            }
        } else if n >= 1 && token[0] == 0x2d {
            let mut v = kind;
            match v.update_str(&token[1..n]) {
                Ok(()) => Ok(Constraint::DecreasedBy { delta: v }),
                Err(e) => Err(e),
            }
        } else {
            match Self::find_dotdot_exec(token) {
                Some(i) => {
                    let mut lo = kind;
                    match lo.update_str(&token[0..i]) {
                        Ok(()) => {
                            let mut hi = kind;
                            match hi.update_str(&token[i + 2..n]) {
                                Ok(()) => Ok(Constraint::Within { lo, hi }),
                                Err(e) => Err(e),
                            }
                        },
                        Err(e) => Err(e),
                    }
                },
                None => {
                    let mut v = kind;
                    match v.update_str(token) {
                        Ok(()) => Ok(Constraint::Compare { op: CmpKind::Equal, operand: v }),
                        Err(e) => Err(e),
                    }
                },
            }
        }
    }

    /// Parses a comparison literal.
    fn cmp_lit(op: CmpKind, kind: Value, lit: &[u8]) -> (r: crate::Result<Constraint>)
        ensures
            r == spec_cmp_lit(op, kind, lit@),
    {
        let mut v = kind;
        match v.update_str(lit) {
            Ok(()) => Ok(Constraint::Compare { op, operand: v }),
            Err(e) => Err(e),
        }
    }

    /// Finds the first `..` in a token.
    fn find_dotdot_exec(token: &[u8]) -> (r: Option<usize>)
        ensures
            match r {
                Some(i) => find_dotdot(token@, 0) == Some(i as int) && i + 2 <= token@.len(),
                None => find_dotdot(token@, 0) is None,
            },
    {
        if token.len() < 2 {
            return None;
        }
        let n = token.len();
        let mut i: usize = 0;
        while i <= n - 2
            invariant
                0 <= i <= n - 1,
                n == token@.len(),
                n >= 2,
                find_dotdot(token@, 0) == find_dotdot(token@, i as int),
            decreases token@.len() - i,
        {
            if token[i] == 0x2e && token[i + 1] == 0x2e {
                return Some(i);
            }
            i = i + 1;
        }
        None
    }

    /// Parses every constraint token of a command.  A command must carry
    /// at least one constraint; the first malformed token aborts the
    /// parse with its error.
    #[verifier::rlimit(60)]
    pub fn parse_constraints(tokens: &Vec<Vec<u8>>, kind: Value) -> (r: crate::Result<
        Vec<Constraint>,
    >)
        ensures
            match r {
                Ok(cs) => {
                    &&& tokens@.len() > 0
                    &&& cs@.len() == tokens@.len()
                    &&& forall|i: int|
                        0 <= i < tokens@.len() ==> #[trigger] spec_parse(tokens@[i]@, kind)
                            == Ok::<_, Error>(cs@[i])
                    &&& forall|i: int| 0 <= i < cs@.len() ==> (#[trigger] cs@[i]).wf_for(kind)
                },
                Err(Error::MissingArgument) => tokens@.len() == 0,
                Err(e) => exists|i: int|
                    {
                        &&& 0 <= i < tokens@.len()
                        &&& #[trigger] spec_parse(tokens@[i]@, kind) == crate::Result::<
                            Constraint,
                        >::Err(e)
                        &&& forall|j: int|
                            0 <= j < i ==> #[trigger] spec_parse(tokens@[j]@, kind) is Ok
                    },
            },
    {
        if tokens.len() == 0 {
            return Err(Error::MissingArgument);
        }
        let mut cs: Vec<Constraint> = Vec::new();
        let mut i: usize = 0;
        while i < tokens.len()
            invariant
                0 <= i <= tokens@.len(),
                tokens@.len() > 0,
                cs@.len() == i,
                forall|j: int|
                    0 <= j < i ==> #[trigger] spec_parse(tokens@[j]@, kind) == Ok::<_, Error>(
                        cs@[j],
                    ),
                forall|j: int| 0 <= j < i ==> (#[trigger] cs@[j]).wf_for(kind),
            decreases tokens@.len() - i,
        {
            match Constraint::from_str_value(tokens[i].as_slice(), kind) {
                Ok(c) => {
                    cs.push(c);
                },
                Err(e) => {
                    proof {
                        assert(spec_parse(tokens@[i as int]@, kind) == crate::Result::<
                            Constraint,
                        >::Err(e));
                        if e == Error::MissingArgument {
                            lemma_spec_parse_not_missing(tokens@[i as int]@, kind);
                        }
                    }
                    return Err(e);
                },
            }
            i = i + 1;
        }
        Ok(cs)
    }
}

/// A parsed constraint fits the representation it was parsed against.
proof fn lemma_spec_parse_wf(token: Seq<u8>, kind: Value)
    ensures
        spec_parse(token, kind) matches Ok(c) ==> c.wf_for(kind),
{
    reveal(spec_parse);
}

/// The token parser never reports a missing argument; that error is
/// reserved for an absent token list.
proof fn lemma_spec_parse_not_missing(token: Seq<u8>, kind: Value)
    ensures
        spec_parse(token, kind) != crate::Result::<Constraint>::Err(Error::MissingArgument),
{
    reveal(spec_parse);
}

impl Value {
    /// Exec mirror of [`Value::same_kind`].
    pub fn same_kind_exec(&self, other: &Value) -> (r: bool)
        ensures
            r == self.same_kind(*other),
    {
        match (self, other) {
            (Value::F32(_), Value::F32(_)) => true,
            (Value::F64(_), Value::F64(_)) => true,
            (Value::U8(_), Value::U8(_)) => true,
            (Value::U16(_), Value::U16(_)) => true,
            (Value::U32(_), Value::U32(_)) => true,
            (Value::U64(_), Value::U64(_)) => true,
            (Value::I8(_), Value::I8(_)) => true,
            (Value::I16(_), Value::I16(_)) => true,
            (Value::I32(_), Value::I32(_)) => true,
            (Value::I64(_), Value::I64(_)) => true,
            _ => false,
        }
    }

    /// Splits an integer value into sign and magnitude, as the exact-
    /// delta evaluation uses it.
    fn delta_parts(&self) -> (r: (bool, u64))
        requires
            !(*self is F32),
            !(*self is F64),
        ensures
            self.spec_int_val() >= 0 ==> !r.0 && r.1 as int == self.spec_int_val(),
            self.spec_int_val() < 0 ==> r.0 && r.1 as int == -self.spec_int_val(),
    {
        match self {
            Value::F32(_) => (false, 0),
            Value::F64(_) => (false, 0),
            Value::U8(x) => (false, *x as u64),
            Value::U16(x) => (false, *x as u64),
            Value::U32(x) => (false, *x as u64),
            Value::U64(x) => (false, *x),
            Value::I8(x) => {
                if *x < 0 {
                    (true, (-(*x as i64)) as u64)
                } else {
                    (false, *x as u64)
                }
            },
            Value::I16(x) => {
                if *x < 0 {
                    (true, (-(*x as i64)) as u64)
                } else {
                    (false, *x as u64)
                }
            },
            Value::I32(x) => {
                if *x < 0 {
                    (true, (-(*x as i64)) as u64)
                } else {
                    (false, *x as u64)
                }
            },
            Value::I64(x) => {
                if *x < 0 {
                    if *x == i64::MIN {
                        (true, 0x8000_0000_0000_0000u64)
                    } else {
                        (true, (-*x) as u64)
                    }
                } else {
                    (false, *x as u64)
                }
            },
        }
    }
}

} // verus!
