//! Turning announced order text into typed actions. Malformed text is
//! rejected, never guessed at. The grammar is ASCII keywords with
//! space-separated decimal arguments, orders joined by `|`.

use vstd::prelude::*;

use vstd::string::StringSliceAdditionalSpecFns;

use crate::actions::{Action, InputError, OppAction, System};
use crate::pos::{Direction, Pos};

verus! {

/// The smallest index of `c` in `b`, or the length when absent.
pub open spec fn find_byte(b: Seq<u8>, c: u8) -> int
    decreases b.len(),
{
    if b.len() == 0 {
        0
    } else if b.first() == c {
        0
    } else {
        1 + find_byte(b.drop_first(), c)
    }
}

/// The index of the first occurrence characterizes `find_byte`.
pub proof fn lemma_find_byte(b: Seq<u8>, c: u8, i: int)
    requires
        0 <= i <= b.len(),
        forall|j: int| 0 <= j < i ==> b[j] != c,
        i < b.len() ==> b[i] == c,
    ensures
        find_byte(b, c) == i,
    decreases b.len(),
{
    if b.len() > 0 {
        if i == 0 {
            if b.first() != c {
                assert(b[0] != c);
            }
        } else {
            assert(b[0] != c);
            let t = b.drop_first();
            assert forall|j: int| 0 <= j < i - 1 implies t[j] != c by {
                assert(t[j] == b[j + 1]);
            }
            assert(i - 1 < t.len() ==> t[i - 1] == c) by {
                if i - 1 < t.len() {
                    assert(t[i - 1] == b[i]);
                }
            }
            lemma_find_byte(t, c, i - 1);
        }
    }
}

/// Whether `b` is one or more decimal digits.
pub open spec fn is_digits(b: Seq<u8>) -> bool {
    b.len() >= 1 && forall|i: int| 0 <= i < b.len() ==> 48 <= #[trigger] b[i] <= 57
}

/// The number the digit string `b` denotes.
pub open spec fn dec_val(b: Seq<u8>) -> nat
    decreases b.len(),
{
    if b.len() == 0 {
        0
    } else {
        dec_val(b.drop_last()) * 10 + (if b.last() >= 48 {
            (b.last() - 48) as nat
        } else {
            0nat
        })
    }
}

/// A digit prefix never denotes more than the whole string.
proof fn lemma_dec_val_mono(b: Seq<u8>, j: int)
    requires
        is_digits(b),
        0 <= j <= b.len(),
    ensures
        dec_val(b.take(j)) <= dec_val(b),
    decreases b.len() - j,
{
    if j < b.len() {
        assert(b.take(j + 1).drop_last() =~= b.take(j));
        assert(b.take(j + 1).last() == b[j]);
        assert(dec_val(b.take(j)) <= dec_val(b.take(j)) * 10);
        lemma_dec_val_mono(b, j + 1);
    } else {
        assert(b.take(j) =~= b);
    }
}

/// What a digit string denotes as a machine number.
pub open spec fn spec_parse_num(b: Seq<u8>) -> Result<usize, InputError> {
    if is_digits(b) && dec_val(b) <= usize::MAX {
        Ok(dec_val(b) as usize)
    } else {
        Err(InputError::BadNumber)
    }
}

/// Read a decimal number. `Ok` exactly on one-or-more digits whose value
/// fits the machine word.
pub fn parse_usize(b: &[u8]) -> (r: Result<usize, InputError>)
    ensures
        r == spec_parse_num(b@),
{
    let n: usize = b.len();
    if n == 0 {
        return Err(InputError::BadNumber);
    }
    let mut acc: usize = 0;
    let mut i: usize = 0;
    while i < n
        invariant
            n == b@.len(),
            1 <= n,
            i <= n,
            forall|j: int| 0 <= j < i ==> 48 <= #[trigger] b@[j] <= 57,
            acc == dec_val(b@.take(i as int)),
        decreases n - i,
    {
        let d: u8 = b[i];
        if d < 48 || d > 57 {
            return Err(InputError::BadNumber);
        }
        proof {
            assert(b@.take(i + 1).drop_last() =~= b@.take(i as int));
            assert(b@.take(i + 1).last() == b@[i as int]);
        }
        let step: Option<usize> = acc.checked_mul(10);
        let acc2: usize = match step {
            Some(m) => m,
            None => {
                proof {
                    if is_digits(b@) {
                        lemma_dec_val_mono(b@, i + 1);
                    }
                }
                return Err(InputError::BadNumber);
            },
        };
        let step2: Option<usize> = acc2.checked_add((d - 48) as usize);
        acc = match step2 {
            Some(v) => v,
            None => {
                proof {
                    if is_digits(b@) {
                        lemma_dec_val_mono(b@, i + 1);
                    }
                }
                return Err(InputError::BadNumber);
            },
        };
        i = i + 1;
    }
    proof {
        assert(b@.take(n as int) =~= b@);
    }
    Ok(acc)
}

/// The bytes of `MOVE` and a space.
pub open spec fn kw_move() -> Seq<u8> {
    seq![77u8, 79u8, 86u8, 69u8, 32u8]
}

/// The bytes of `SURFACE` and a space.
pub open spec fn kw_surface() -> Seq<u8> {
    seq![83u8, 85u8, 82u8, 70u8, 65u8, 67u8, 69u8, 32u8]
}

/// The bytes of `SONAR` and a space.
pub open spec fn kw_sonar() -> Seq<u8> {
    seq![83u8, 79u8, 78u8, 65u8, 82u8, 32u8]
}

/// The bytes of `TORPEDO` and a space.
pub open spec fn kw_torpedo() -> Seq<u8> {
    seq![84u8, 79u8, 82u8, 80u8, 69u8, 68u8, 79u8, 32u8]
}

/// The bytes of `SILENCE`.
pub open spec fn kw_silence() -> Seq<u8> {
    seq![83u8, 73u8, 76u8, 69u8, 78u8, 67u8, 69u8]
}

/// The bytes of `TORPEDO`.
pub open spec fn kw_torpedo_word() -> Seq<u8> {
    seq![84u8, 79u8, 82u8, 80u8, 69u8, 68u8, 79u8]
}

/// The bytes of `SONAR`.
pub open spec fn kw_sonar_word() -> Seq<u8> {
    seq![83u8, 79u8, 78u8, 65u8, 82u8]
}

/// The bytes of `MINE`.
pub open spec fn kw_mine_word() -> Seq<u8> {
    seq![77u8, 73u8, 78u8, 69u8]
}

fn vec_move() -> (r: Vec<u8>)
    ensures
        r@ == kw_move(),
{
    let mut v: Vec<u8> = Vec::new();
    v.push(77u8);
    v.push(79u8);
    v.push(86u8);
    v.push(69u8);
    v.push(32u8);
    proof {
        assert(v@ =~= kw_move());
    }
    v
}

fn vec_surface() -> (r: Vec<u8>)
    ensures
        r@ == kw_surface(),
{
    let mut v: Vec<u8> = Vec::new();
    v.push(83u8);
    v.push(85u8);
    v.push(82u8);
    v.push(70u8);
    v.push(65u8);
    v.push(67u8);
    v.push(69u8);
    v.push(32u8);
    proof {
        assert(v@ =~= kw_surface());
    }
    v
}

fn vec_sonar() -> (r: Vec<u8>)
    ensures
        r@ == kw_sonar(),
{
    let mut v: Vec<u8> = Vec::new();
    v.push(83u8);
    v.push(79u8);
    v.push(78u8);
    v.push(65u8);
    v.push(82u8);
    v.push(32u8);
    proof {
        assert(v@ =~= kw_sonar());
    }
    v
}

fn vec_torpedo() -> (r: Vec<u8>)
    ensures
        r@ == kw_torpedo(),
{
    let mut v: Vec<u8> = Vec::new();
    v.push(84u8);
    v.push(79u8);
    v.push(82u8);
    v.push(80u8);
    v.push(69u8);
    v.push(68u8);
    v.push(79u8);
    v.push(32u8);
    proof {
        assert(v@ =~= kw_torpedo());
    }
    v
}

fn vec_silence() -> (r: Vec<u8>)
    ensures
        r@ == kw_silence(),
{
    let mut v: Vec<u8> = Vec::new();
    v.push(83u8);
    v.push(73u8);
    v.push(76u8);
    v.push(69u8);
    v.push(78u8);
    v.push(67u8);
    v.push(69u8);
    proof {
        assert(v@ =~= kw_silence());
    }
    v
}

/// Whether `b` equals the whole byte sequence `p`.
fn bytes_eq(b: &[u8], p: &[u8]) -> (r: bool)
    ensures
        r == (b@ == p@),
{
    if b.len() != p.len() {
        proof {
            assert(b@.len() != p@.len());
        }
        return false;
    }
    let mut i: usize = 0;
    while i < b.len()
        invariant
            b@.len() == p@.len(),
            i <= b@.len(),
            forall|j: int| 0 <= j < i ==> b@[j] == p@[j],
        decreases b@.len() - i,
    {
        if b[i] != p[i] {
            return false;
        }
        i = i + 1;
    }
    proof {
        assert(b@ =~= p@);
    }
    true
}

/// Whether `p` starts `b`.
pub open spec fn has_prefix(b: Seq<u8>, p: Seq<u8>) -> bool {
    b.len() >= p.len() && b.take(p.len() as int) == p
}

fn starts_with(b: &[u8], p: &[u8]) -> (r: bool)
    ensures
        r == has_prefix(b@, p@),
{
    if b.len() < p.len() {
        return false;
    }
    let mut i: usize = 0;
    while i < p.len()
        invariant
            b@.len() >= p@.len(),
            i <= p@.len(),
            forall|j: int| 0 <= j < i ==> b@[j] == p@[j],
        decreases p@.len() - i,
    {
        if b[i] != p[i] {
            proof {
                assert(b@.take(p@.len() as int)[i as int] != p@[i as int]);
            }
            return false;
        }
        i = i + 1;
    }
    proof {
        assert(b@.take(p@.len() as int) =~= p@);
    }
    true
}

/// A sub-range of the bytes, copied out.
fn sub_bytes(b: &[u8], from: usize, to: usize) -> (r: Vec<u8>)
    requires
        from <= to <= b@.len(),
    ensures
        r@ == b@.subrange(from as int, to as int),
{
    let mut out: Vec<u8> = Vec::new();
    let mut i: usize = from;
    while i < to
        invariant
            from <= i <= to <= b@.len(),
            out@ =~= b@.subrange(from as int, i as int),
        decreases to - i,
    {
        out.push(b[i]);
        proof {
            assert(out@ =~= b@.subrange(from as int, i + 1));
        }
        i = i + 1;
    }
    out
}

/// What a single direction letter denotes: `N`, `E`, `S` or `W`.
pub open spec fn spec_parse_direction(b: Seq<u8>) -> Result<Direction, InputError> {
    if b == seq![78u8] {
        Ok(Direction::N)
    } else if b == seq![69u8] {
        Ok(Direction::E)
    } else if b == seq![83u8] {
        Ok(Direction::S)
    } else if b == seq![87u8] {
        Ok(Direction::W)
    } else {
        Err(InputError::BadAction)
    }
}

fn parse_direction_bytes(b: &[u8]) -> (r: Result<Direction, InputError>)
    ensures
        r == spec_parse_direction(b@),
{
    if b.len() != 1 {
        proof {
            assert(b@ != seq![78u8] && b@ != seq![69u8] && b@ != seq![83u8] && b@ != seq![87u8]);
        }
        return Err(InputError::BadAction);
    }
    let c: u8 = b[0];
    proof {
        assert(b@ =~= seq![b@[0]]);
    }
    if c == 78 {
        Ok(Direction::N)
    } else if c == 69 {
        Ok(Direction::E)
    } else if c == 83 {
        Ok(Direction::S)
    } else if c == 87 {
        Ok(Direction::W)
    } else {
        proof {
            assert(b@ != seq![78u8] && b@ != seq![69u8] && b@ != seq![83u8] && b@ != seq![87u8]);
        }
        Err(InputError::BadAction)
    }
}

impl Direction {
    /// Read a direction letter.
    pub fn parse(s: &str) -> (r: Result<Direction, InputError>)
        ensures
            r == spec_parse_direction(s.spec_bytes()),
    {
        parse_direction_bytes(s.as_bytes())
    }
}

/// What a system keyword denotes.
pub open spec fn spec_parse_system(b: Seq<u8>) -> Result<System, InputError> {
    if b == kw_torpedo_word() {
        Ok(System::Torpedo)
    } else if b == kw_sonar_word() {
        Ok(System::Sonar)
    } else if b == kw_silence() {
        Ok(System::Silence)
    } else if b == kw_mine_word() {
        Ok(System::Mine)
    } else {
        Err(InputError::BadAction)
    }
}

impl System {
    /// Read a system keyword.
    pub fn parse(s: &str) -> (r: Result<System, InputError>)
        ensures
            r == spec_parse_system(s.spec_bytes()),
    {
        let b = s.as_bytes();
        let mut torpedo: Vec<u8> = Vec::new();
        torpedo.push(84u8);
        torpedo.push(79u8);
        torpedo.push(82u8);
        torpedo.push(80u8);
        torpedo.push(69u8);
        torpedo.push(68u8);
        torpedo.push(79u8);
        proof {
            assert(torpedo@ =~= kw_torpedo_word());
        }
        if bytes_eq(b, torpedo.as_slice()) {
            return Ok(System::Torpedo);
        }
        let mut sonar: Vec<u8> = Vec::new();
        sonar.push(83u8);
        sonar.push(79u8);
        sonar.push(78u8);
        sonar.push(65u8);
        sonar.push(82u8);
        proof {
            assert(sonar@ =~= kw_sonar_word());
        }
        if bytes_eq(b, sonar.as_slice()) {
            return Ok(System::Sonar);
        }
        let silence = vec_silence();
        if bytes_eq(b, silence.as_slice()) {
            return Ok(System::Silence);
        }
        let mut mine: Vec<u8> = Vec::new();
        mine.push(77u8);
        mine.push(73u8);
        mine.push(78u8);
        mine.push(69u8);
        proof {
            assert(mine@ =~= kw_mine_word());
        }
        if bytes_eq(b, mine.as_slice()) {
            return Ok(System::Mine);
        }
        Err(InputError::BadAction)
    }
}

/// What the two space-separated numbers after an attack keyword denote:
/// the announcement carries the column first.
pub open spec fn spec_parse_pos(b: Seq<u8>) -> Result<Pos, InputError> {
    let i = find_byte(b, 32);
    if i >= b.len() {
        Err(InputError::BadAction)
    } else {
        match spec_parse_num(b.take(i)) {
            Ok(x) => match spec_parse_num(b.skip(i + 1)) {
                Ok(y) => Ok(Pos { x, y }),
                Err(e) => Err(e),
            },
            Err(e) => Err(e),
        }
    }
}

fn find_byte_from(b: &[u8], c: u8, from: usize) -> (r: usize)
    requires
        from <= b@.len(),
    ensures
        from <= r <= b@.len(),
        r - from == find_byte(b@.skip(from as int), c),
{
    let n: usize = b.len();
    let mut i: usize = from;
    while i < n
        invariant
            from <= i <= n,
            n == b@.len(),
            forall|j: int| from <= j < i ==> b@[j] != c,
        decreases n - i,
    {
        if b[i] == c {
            proof {
                let t = b@.skip(from as int);
                assert forall|j: int| 0 <= j < i - from implies t[j] != c by {
                    assert(t[j] == b@[j + from]);
                }
                assert(t[i - from] == b@[i as int]);
                lemma_find_byte(t, c, i - from);
            }
            return i;
        }
        i = i + 1;
    }
    proof {
        let t = b@.skip(from as int);
        assert forall|j: int| 0 <= j < n - from implies t[j] != c by {
            assert(t[j] == b@[j + from]);
        }
        lemma_find_byte(t, c, n - from);
    }
    n
}

fn parse_pos_bytes(b: &[u8]) -> (r: Result<Pos, InputError>)
    ensures
        r == spec_parse_pos(b@),
{
    proof {
        assert(b@.skip(0) =~= b@);
    }
    let i = find_byte_from(b, 32, 0);
    if i >= b.len() {
        return Err(InputError::BadAction);
    }
    let xs = sub_bytes(b, 0, i);
    proof {
        assert(xs@ =~= b@.take(i as int));
    }
    let x = match parse_usize(xs.as_slice()) {
        Ok(x) => x,
        Err(e) => {
            return Err(e);
        },
    };
    let ys = sub_bytes(b, i + 1, b.len());
    proof {
        assert(ys@ =~= b@.skip(i + 1));
    }
    let y = match parse_usize(ys.as_slice()) {
        Ok(y) => y,
        Err(e) => {
            return Err(e);
        },
    };
    Ok(Pos { x, y })
}

/// What one announced order denotes for an outside observer. An observed
/// move announces no charging choice and an observed silent move hides
/// its direction and distance, so those fields take fixed placeholders.
#[verifier::opaque]
pub open spec fn spec_parse_action(b: Seq<u8>) -> Result<Action, InputError> {
    if b == kw_silence() {
        Ok(Action::Silence(Direction::N, 0))
    } else if has_prefix(b, kw_move()) {
        match spec_parse_direction(b.skip(5)) {
            Ok(d) => Ok(Action::Move(d, System::Torpedo)),
            Err(e) => Err(e),
        }
    } else if has_prefix(b, kw_surface()) {
        match spec_parse_num(b.skip(8)) {
            Ok(v) => Ok(Action::Surface(v)),
            Err(e) => Err(e),
        }
    } else if has_prefix(b, kw_sonar()) {
        match spec_parse_num(b.skip(6)) {
            Ok(v) => Ok(Action::Sonar(v)),
            Err(e) => Err(e),
        }
    } else if has_prefix(b, kw_torpedo()) {
        match spec_parse_pos(b.skip(8)) {
            Ok(p) => Ok(Action::Torpedo(p)),
            Err(e) => Err(e),
        }
    } else {
        Err(InputError::BadAction)
    }
}

impl Action {
    /// Read one announced order.
    pub fn parse(s: &str) -> (r: Result<Action, InputError>)
        ensures
            r == spec_parse_action(s.spec_bytes()),
    {
        Self::parse_bytes(s.as_bytes())
    }

    /// Read one announced order from its bytes.
    pub fn parse_bytes(b: &[u8]) -> (r: Result<Action, InputError>)
        ensures
            r == spec_parse_action(b@),
    {
        proof {
            reveal(spec_parse_action);
        }
        let silence = vec_silence();
        if bytes_eq(b, silence.as_slice()) {
            return Ok(Action::Silence(Direction::N, 0));
        }
        let mv = vec_move();
        if starts_with(b, mv.as_slice()) {
            let rest = sub_bytes(b, 5, b.len());
            proof {
                assert(rest@ =~= b@.skip(5));
            }
            let d = match parse_direction_bytes(rest.as_slice()) {
                Ok(d) => d,
                Err(e) => {
                    return Err(e);
                },
            };
            return Ok(Action::Move(d, System::Torpedo));
        }
        let sf = vec_surface();
        if starts_with(b, sf.as_slice()) {
            let rest = sub_bytes(b, 8, b.len());
            proof {
                assert(rest@ =~= b@.skip(8));
            }
            let v = match parse_usize(rest.as_slice()) {
                Ok(v) => v,
                Err(e) => {
                    return Err(e);
                },
            };
            return Ok(Action::Surface(v));
        }
        let sn = vec_sonar();
        if starts_with(b, sn.as_slice()) {
            let rest = sub_bytes(b, 6, b.len());
            proof {
                assert(rest@ =~= b@.skip(6));
            }
            let v = match parse_usize(rest.as_slice()) {
                Ok(v) => v,
                Err(e) => {
                    return Err(e);
                },
            };
            return Ok(Action::Sonar(v));
        }
        let tp = vec_torpedo();
        if starts_with(b, tp.as_slice()) {
            let rest = sub_bytes(b, 8, b.len());
            proof {
                assert(rest@ =~= b@.skip(8));
            }
            let p = match parse_pos_bytes(rest.as_slice()) {
                Ok(p) => p,
                Err(e) => {
                    return Err(e);
                },
            };
            return Ok(Action::Torpedo(p));
        }
        Err(InputError::BadAction)
    }
}

/// The opponent-side reading of an announced order.
pub open spec fn spec_observed(a: Action) -> OppAction {
    match a {
        Action::Move(d, _) => OppAction::Move(d),
        Action::Surface(s) => OppAction::Surface(s),
        Action::Torpedo(p) => OppAction::Torpedo(p),
        Action::Sonar(s) => OppAction::Sonar(s),
        Action::Silence(_, _) => OppAction::Silence,
    }
}

/// The opponent-side reading of an announced order.
pub fn observed(a: &Action) -> (r: OppAction)
    ensures
        r == spec_observed(*a),
{
    match a {
        Action::Move(d, _) => OppAction::Move(*d),
        Action::Surface(s) => OppAction::Surface(*s),
        Action::Torpedo(p) => OppAction::Torpedo(*p),
        Action::Sonar(s) => OppAction::Sonar(*s),
        Action::Silence(_, _) => OppAction::Silence,
    }
}

impl OppAction {
    /// Read one opponent announcement: the same grammar, seen from the
    /// tracking side.
    pub fn parse(s: &str) -> (r: Result<OppAction, InputError>)
        ensures
            r == (match spec_parse_action(s.spec_bytes()) {
                Ok(a) => Ok::<OppAction, InputError>(spec_observed(a)),
                Err(e) => Err::<OppAction, InputError>(e),
            }),
    {
        match Action::parse(s) {
            Ok(a) => Ok(observed(&a)),
            Err(e) => Err(e),
        }
    }
}

/// What a `|`-separated order list denotes.
#[verifier::opaque]
pub open spec fn spec_parse_action_list(b: Seq<u8>) -> Result<Seq<Action>, InputError>
    decreases b.len(),
{
    let i = find_byte(b, 124);
    if i < 0 || i >= b.len() {
        match spec_parse_action(b) {
            Ok(a) => Ok(seq![a]),
            Err(e) => Err(e),
        }
    } else {
        match spec_parse_action(b.take(i)) {
            Ok(a) => match spec_parse_action_list(b.skip(i + 1)) {
                Ok(rest) => Ok(seq![a] + rest),
                Err(e) => Err(e),
            },
            Err(e) => Err(e),
        }
    }
}

/// Peeling the first `|`-separated segment off a list.
proof fn lemma_list_peel(b: Seq<u8>, start: int, i: int, a_res: Result<Action, InputError>)
    requires
        0 <= start <= b.len(),
        start <= i <= b.len(),
        i - start == find_byte(b.skip(start), 124),
        a_res == spec_parse_action(b.skip(start).take(i - start)),
    ensures
        i >= b.len() ==> spec_parse_action_list(b.skip(start)) == (match a_res {
            Ok(a) => Ok::<Seq<Action>, InputError>(seq![a]),
            Err(e) => Err::<Seq<Action>, InputError>(e),
        }),
        i < b.len() ==> (match a_res {
            Ok(a) => (match spec_parse_action_list(b.skip(i + 1)) {
                Ok(rest) => spec_parse_action_list(b.skip(start)) == Ok::<
                    Seq<Action>,
                    InputError,
                >(seq![a] + rest),
                Err(e) => spec_parse_action_list(b.skip(start)) == Err::<
                    Seq<Action>,
                    InputError,
                >(e),
            }),
            Err(e) => spec_parse_action_list(b.skip(start)) == Err::<Seq<Action>, InputError>(e),
        }),
{
    reveal(spec_parse_action_list);
    let t = b.skip(start);
    if i >= b.len() {
        assert(t.take(i - start) =~= t);
    } else {
        assert(t.skip(i - start + 1) =~= b.skip(i + 1));
    }
}

/// Read a `|`-separated order list; the first ill-formed order rejects
/// the whole line.
pub fn parse_action_list(line: &str) -> (r: Result<Vec<Action>, InputError>)
    ensures
        r matches Ok(v) ==> spec_parse_action_list(line.spec_bytes()) == Ok::<
            Seq<Action>,
            InputError,
        >(v@),
        r matches Err(e) ==> spec_parse_action_list(line.spec_bytes()) == Err::<
            Seq<Action>,
            InputError,
        >(e),
{
    let b = line.as_bytes();
    let n: usize = b.len();
    let mut out: Vec<Action> = Vec::new();
    let mut start: usize = 0;
    proof {
        assert(b@.skip(0) =~= b@);
    }
    loop
        invariant_except_break
            start <= n,
            n == b@.len(),
            b@ == line.spec_bytes(),
            (match spec_parse_action_list(b@.skip(start as int)) {
                Ok(rest) => spec_parse_action_list(b@) == Ok::<Seq<Action>, InputError>(
                    out@ + rest,
                ),
                Err(e) => spec_parse_action_list(b@) == Err::<Seq<Action>, InputError>(e),
            }),
        ensures
            spec_parse_action_list(b@) == Ok::<Seq<Action>, InputError>(out@),
        decreases n - start,
    {
        let ghost tail = b@.skip(start as int);
        let ghost done = out@;
        let i = find_byte_from(b, 124, start);
        let seg = sub_bytes(b, start, i);
        proof {
            assert(seg@ =~= tail.take(i - start));
        }
        let res = Action::parse_bytes(seg.as_slice());
        proof {
            lemma_list_peel(b@, start as int, i as int, res);
        }
        let a = match res {
            Ok(a) => a,
            Err(e) => {
                return Err(e);
            },
        };
        out.push(a);
        proof {
            assert(out@ =~= done.push(a));
        }
        if i >= b.len() {
            proof {
                assert(done + seq![a] =~= out@);
            }
            break ;
        }
        proof {
            if spec_parse_action_list(b@.skip(i + 1)) is Ok {
                let rest = spec_parse_action_list(b@.skip(i + 1))->Ok_0;
                assert(done + (seq![a] + rest) =~= out@ + rest);
            }
        }
        start = i + 1;
    }
    Ok(out)
}

} // verus!
