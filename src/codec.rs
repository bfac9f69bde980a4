use vstd::prelude::*;

use crate::datetime::{all_digits, is_digit};
use crate::text::{chars_eq, chars_of, slice_chars, string_of};

verus! {

/// Which page of the portal an address leads to.
#[derive(Clone, Copy, Debug, PartialEq, Eq, Structural)]
pub enum ProgramKind {
    ModuleDetails,
    CourseDetails,
    ExamDetails,
    Registration,
    RootRegistration,
    MyModules,
    MyCourses,
    MyExams,
    PersonalAddress,
}

/// A page of the portal together with the identifier of the entity it shows.
#[derive(Debug)]
pub struct TucanProgram {
    pub kind: ProgramKind,
    pub id: Vec<u8>,
}

/// Why an address could not be read.
#[derive(Clone, Copy, Debug, PartialEq, Eq, Structural)]
pub enum DecodeError {
    /// The text is not an address of the portal in the form this library writes.
    Malformed,
    /// The address leads to another kind of page than the caller expected.
    UnexpectedProgram,
}

pub const BASE_URL: &'static str = "https://www.tucan.tu-darmstadt.de";

pub const PROGRAM_PREFIX: &'static str = "https://www.tucan.tu-darmstadt.de/scripts/mgrqispi.dll?APPNAME=CampusNet&PRGNAME=";

pub const ARGUMENTS_PREFIX: &'static str = "&ARGUMENTS=-N";

pub const IDENTIFIER_PREFIX: &'static str = ",-A";

pub open spec fn program_name(k: ProgramKind) -> Seq<char> {
    match k {
        ProgramKind::ModuleDetails => "MODULEDETAILS"@,
        ProgramKind::CourseDetails => "COURSEDETAILS"@,
        ProgramKind::ExamDetails => "EXAMDETAILS"@,
        ProgramKind::Registration => "REGISTRATION"@,
        ProgramKind::RootRegistration => "STARTREGISTRATION"@,
        ProgramKind::MyModules => "MYMODULES"@,
        ProgramKind::MyCourses => "PROFCOURSES"@,
        ProgramKind::MyExams => "MYEXAMS"@,
        ProgramKind::PersonalAddress => "PERSADDRESS"@,
    }
}

/// The name under which the portal knows a kind of page.
pub fn program_name_of(k: ProgramKind) -> (r: &'static str)
    ensures
        r@ == program_name(k),
{
    match k {
        ProgramKind::ModuleDetails => "MODULEDETAILS",
        ProgramKind::CourseDetails => "COURSEDETAILS",
        ProgramKind::ExamDetails => "EXAMDETAILS",
        ProgramKind::Registration => "REGISTRATION",
        ProgramKind::RootRegistration => "STARTREGISTRATION",
        ProgramKind::MyModules => "MYMODULES",
        ProgramKind::MyCourses => "PROFCOURSES",
        ProgramKind::MyExams => "MYEXAMS",
        ProgramKind::PersonalAddress => "PERSADDRESS",
    }
}

pub open spec fn digit_char(v: nat) -> char {
    if v < 10 {
        (('0' as u8) + (v as u8)) as char
    } else {
        (('a' as u8) + ((v - 10) as u8)) as char
    }
}

/// The decimal digits of `n`, most significant first.
pub open spec fn decimal(n: nat) -> Seq<char>
    decreases n,
{
    if n < 10 {
        seq![digit_char(n)]
    } else {
        decimal(n / 10).push(digit_char(n % 10))
    }
}

/// Two lowercase hexadecimal digits for each byte.
pub open spec fn hex_of(b: Seq<u8>) -> Seq<char>
    decreases b.len(),
{
    if b.len() == 0 {
        Seq::empty()
    } else {
        hex_of(b.drop_last()) + seq![digit_char(b.last() as nat / 16), digit_char(b.last() as nat % 16)]
    }
}

/// The address of a page, with `session` the digits of the session number.
pub open spec fn address(k: ProgramKind, id: Seq<u8>, session: Seq<char>) -> Seq<char> {
    PROGRAM_PREFIX@ + program_name(k) + ARGUMENTS_PREFIX@ + session + IDENTIFIER_PREFIX@ + hex_of(id)
}

/// What a session number contributes to an address; none stands for the anonymous session.
pub open spec fn session_digits(session: Option<u64>) -> Seq<char> {
    match session {
        Some(n) => decimal(n as nat),
        None => decimal(1),
    }
}

proof fn lemma_decimal_digits(n: nat)
    ensures
        all_digits(decimal(n)),
        decimal(n).len() > 0,
    decreases n,
{
    if n >= 10 {
        lemma_decimal_digits(n / 10);
    }
}

fn digit_of(v: u8) -> (r: char)
    requires
        v < 16,
    ensures
        r == digit_char(v as nat),
{
    if v < 10 {
        (48u8 + v) as char
    } else {
        (97u8 + (v - 10)) as char
    }
}

fn decimal_of(n: u64) -> (r: Vec<char>)
    ensures
        r@ == decimal(n as nat),
    decreases n,
{
    if n < 10 {
        vec![digit_of(n as u8)]
    } else {
        let mut v = decimal_of(n / 10);
        v.push(digit_of((n % 10) as u8));
        v
    }
}

fn hex_chars(b: &[u8]) -> (r: Vec<char>)
    ensures
        r@ == hex_of(b@),
{
    let mut r: Vec<char> = Vec::new();
    let mut i: usize = 0;
    while i < b.len()
        invariant
            i <= b@.len(),
            r@ == hex_of(b@.subrange(0, i as int)),
        decreases b@.len() - i,
    {
        assert(b@.subrange(0, i + 1).drop_last() =~= b@.subrange(0, i as int));
        r.push(digit_of(b[i] / 16));
        r.push(digit_of(b[i] % 16));
        i = i + 1;
    }
    assert(b@.subrange(0, b@.len() as int) =~= b@);
    r
}

fn push_str(v: &mut Vec<char>, s: &str)
    ensures
        final(v)@ == old(v)@ + s@,
{
    let c = chars_of(s);
    let mut i: usize = 0;
    let ghost start = v@;
    while i < c.len()
        invariant
            i <= c@.len(),
            c@ == s@,
            v@ == start + c@.subrange(0, i as int),
        decreases c@.len() - i,
    {
        v.push(c[i]);
        i = i + 1;
        assert(v@ =~= start + c@.subrange(0, i as int));
    }
    assert(c@.subrange(0, c@.len() as int) =~= c@);
}

fn push_chars(v: &mut Vec<char>, s: &[char])
    ensures
        final(v)@ == old(v)@ + s@,
{
    let mut i: usize = 0;
    let ghost start = v@;
    while i < s.len()
        invariant
            i <= s@.len(),
            v@ == start + s@.subrange(0, i as int),
        decreases s@.len() - i,
    {
        v.push(s[i]);
        i = i + 1;
        assert(v@ =~= start + s@.subrange(0, i as int));
    }
    assert(s@.subrange(0, s@.len() as int) =~= s@);
}

/// The address of the page `kind` for the entity `id`, within the session `session`
/// (the anonymous session where it is absent).
pub fn encode(kind: ProgramKind, id: &[u8], session: Option<u64>) -> (r: String)
    ensures
        r@ == address(kind, id@, session_digits(session)),
{
    let mut v: Vec<char> = Vec::new();
    push_str(&mut v, PROGRAM_PREFIX);
    push_str(&mut v, program_name_of(kind));
    push_str(&mut v, ARGUMENTS_PREFIX);
    let n: u64 = match session {
        Some(n) => n,
        None => 1,
    };
    let d = decimal_of(n);
    push_chars(&mut v, &d);
    push_str(&mut v, IDENTIFIER_PREFIX);
    let h = hex_chars(id);
    push_chars(&mut v, &h);
    string_of(&v)
}


pub open spec fn is_hex_digit(c: char) -> bool {
    ('0' <= c <= '9') || ('a' <= c <= 'f')
}

pub open spec fn hex_value(c: char) -> nat {
    if '0' <= c <= '9' {
        (c as u32 - 48) as nat
    } else {
        (c as u32 - 87) as nat
    }
}

proof fn lemma_digit_char(v: nat)
    requires
        v < 16,
    ensures
        is_hex_digit(digit_char(v)),
        hex_value(digit_char(v)) == v,
{
}

proof fn lemma_hex_index(b: Seq<u8>)
    ensures
        hex_of(b).len() == 2 * b.len(),
        forall|j: int|
            0 <= j < b.len() ==> hex_of(b)[2 * j] == digit_char(#[trigger] b[j] as nat / 16) && hex_of(
                b,
            )[2 * j + 1] == digit_char(b[j] as nat % 16),
    decreases b.len(),
{
    if b.len() > 0 {
        let p = b.drop_last();
        lemma_hex_index(p);
        assert forall|j: int| 0 <= j < b.len() implies hex_of(b)[2 * j] == digit_char(
            #[trigger] b[j] as nat / 16,
        ) && hex_of(b)[2 * j + 1] == digit_char(b[j] as nat % 16) by {
            if j < p.len() {
                assert(b[j] == p[j]);
            }
        }
    }
}

proof fn lemma_hex_injective(a: Seq<u8>, b: Seq<u8>)
    requires
        hex_of(a) == hex_of(b),
    ensures
        a == b,
{
    lemma_hex_index(a);
    lemma_hex_index(b);
    assert forall|j: int| 0 <= j < a.len() implies a[j] == b[j] by {
        let x = a[j] as nat;
        let y = b[j] as nat;
        assert(hex_of(a)[2 * j] == hex_of(b)[2 * j]);
        assert(hex_of(a)[2 * j + 1] == hex_of(b)[2 * j + 1]);
        lemma_digit_char(x / 16);
        lemma_digit_char(y / 16);
        lemma_digit_char(x % 16);
        lemma_digit_char(y % 16);
        assert(x == 16 * (x / 16) + x % 16);
        assert(y == 16 * (y / 16) + y % 16);
    }
    assert(a =~= b);
}

proof fn lemma_hex_valid(b: Seq<u8>)
    ensures
        hex_of(b).len() % 2 == 0,
        forall|i: int| 0 <= i < hex_of(b).len() ==> is_hex_digit(#[trigger] hex_of(b)[i]),
{
    lemma_hex_index(b);
    assert forall|i: int| 0 <= i < hex_of(b).len() implies is_hex_digit(#[trigger] hex_of(b)[i]) by {
        let j = i / 2;
        assert(b[j] == b[j]);
        lemma_digit_char(b[j] as nat / 16);
        lemma_digit_char(b[j] as nat % 16);
        if i % 2 == 0 {
            assert(i == 2 * j);
        } else {
            assert(i == 2 * j + 1);
        }
    }
}

fn hex_value_of(c: char) -> (r: u8)
    requires
        is_hex_digit(c),
    ensures
        r as nat == hex_value(c),
        r < 16,
{
    if '0' <= c && c <= '9' {
        (c as u32 - 48) as u8
    } else {
        (c as u32 - 87) as u8
    }
}

/// The bytes that the hexadecimal digits `h` stand for, if `h` is such digits, two per byte.
pub fn decode_hex(h: &[char]) -> (r: Option<Vec<u8>>)
    ensures
        r is Some <==> (h@.len() % 2 == 0 && forall|i: int|
            0 <= i < h@.len() ==> is_hex_digit(#[trigger] h@[i])),
        r matches Some(b) ==> hex_of(b@) == h@,
        forall|b: Seq<u8>| hex_of(b) == h@ ==> (r matches Some(v) && v@ == b),
{
    proof {
        assert forall|b: Seq<u8>| hex_of(b) == h@ implies (h@.len() % 2 == 0 && forall|i: int|
            0 <= i < h@.len() ==> is_hex_digit(#[trigger] h@[i])) by {
            lemma_hex_valid(b);
        }
    }
    if h.len() % 2 != 0 {
        return None;
    }
    let mut out: Vec<u8> = Vec::new();
    let mut i: usize = 0;
    while i < h.len()
        invariant
            h@.len() % 2 == 0,
            i % 2 == 0,
            i <= h@.len(),
            out@.len() * 2 == i,
            hex_of(out@) == h@.subrange(0, i as int),
            forall|j: int| 0 <= j < i ==> is_hex_digit(#[trigger] h@[j]),
            forall|b: Seq<u8>| hex_of(b) == h@ ==> forall|j: int|
                0 <= j < h@.len() ==> is_hex_digit(#[trigger] h@[j]),
        decreases h@.len() - i,
    {
        let a = h[i];
        let b = h[i + 1];
        if !(('0' <= a && a <= '9') || ('a' <= a && a <= 'f')) {
            return None;
        }
        if !(('0' <= b && b <= '9') || ('a' <= b && b <= 'f')) {
            assert(is_hex_digit(h@[i + 1]) == false);
            return None;
        }
        let hi = hex_value_of(a);
        let lo = hex_value_of(b);
        let byte: u8 = hi * 16 + lo;
        let ghost prev = out@;
        out.push(byte);
        proof {
            assert(out@.drop_last() =~= prev);
            assert(byte as nat / 16 == hi as nat);
            assert(byte as nat % 16 == lo as nat);
            assert(digit_char(hi as nat) == a) by {
                assert(a as u32 == 48 + hi || a as u32 == 87 + hi);
            }
            assert(digit_char(lo as nat) == b) by {
                assert(b as u32 == 48 + lo || b as u32 == 87 + lo);
            }
            assert(h@.subrange(0, i + 2) =~= h@.subrange(0, i as int) + seq![a, b]);
        }
        i = i + 2;
    }
    assert(h@.subrange(0, h@.len() as int) =~= h@);
    proof {
        assert forall|b: Seq<u8>| hex_of(b) == h@ implies out@ == b by {
            lemma_hex_injective(out@, b);
        }
    }
    Some(out)
}

proof fn lemma_program_names()
    ensures
        forall|k: ProgramKind, i: int|
            0 <= i < program_name(k).len() ==> #[trigger] program_name(k)[i] != '&',
        forall|k1: ProgramKind, k2: ProgramKind|
            #[trigger] program_name(k1) == #[trigger] program_name(k2) ==> k1 == k2,
        ARGUMENTS_PREFIX@.len() == 13,
        ARGUMENTS_PREFIX@[0] == '&',
        IDENTIFIER_PREFIX@.len() == 3,
        IDENTIFIER_PREFIX@[0] == ',',
{
    reveal_strlit("MODULEDETAILS");
    reveal_strlit("COURSEDETAILS");
    reveal_strlit("EXAMDETAILS");
    reveal_strlit("REGISTRATION");
    reveal_strlit("STARTREGISTRATION");
    reveal_strlit("MYMODULES");
    reveal_strlit("PROFCOURSES");
    reveal_strlit("MYEXAMS");
    reveal_strlit("PERSADDRESS");
    reveal_strlit("&ARGUMENTS=-N");
    reveal_strlit(",-A");
    assert forall|k1: ProgramKind, k2: ProgramKind|
        #[trigger] program_name(k1) == #[trigger] program_name(k2) implies k1 == k2 by {
        if k1 != k2 {
            let a = program_name(k1);
            let b = program_name(k2);
            if a.len() == b.len() {
                assert(a[0] != b[0] || a[1] != b[1] || a[2] != b[2]);
            }
        }
    }
}

fn kind_of_name(name: &[char]) -> (r: Option<ProgramKind>)
    ensures
        r matches Some(k) ==> program_name(k) == name@,
        r is None ==> forall|k: ProgramKind| program_name(k) != name@,
{
    let kinds = [
        ProgramKind::ModuleDetails,
        ProgramKind::CourseDetails,
        ProgramKind::ExamDetails,
        ProgramKind::Registration,
        ProgramKind::RootRegistration,
        ProgramKind::MyModules,
        ProgramKind::MyCourses,
        ProgramKind::MyExams,
        ProgramKind::PersonalAddress,
    ];
    let mut i: usize = 0;
    while i < 9
        invariant
            i <= 9,
            kinds@ == seq![
                ProgramKind::ModuleDetails,
                ProgramKind::CourseDetails,
                ProgramKind::ExamDetails,
                ProgramKind::Registration,
                ProgramKind::RootRegistration,
                ProgramKind::MyModules,
                ProgramKind::MyCourses,
                ProgramKind::MyExams,
                ProgramKind::PersonalAddress,
            ],
            forall|j: int| 0 <= j < i ==> program_name(#[trigger] kinds@[j]) != name@,
        decreases 9 - i,
    {
        let k = kinds[i];
        let n = chars_of(program_name_of(k));
        if chars_eq(&n, name) {
            return Some(k);
        }
        i = i + 1;
    }
    proof {
        assert forall|k: ProgramKind| program_name(k) != name@ by {
            let j: int = match k {
                ProgramKind::ModuleDetails => 0,
                ProgramKind::CourseDetails => 1,
                ProgramKind::ExamDetails => 2,
                ProgramKind::Registration => 3,
                ProgramKind::RootRegistration => 4,
                ProgramKind::MyModules => 5,
                ProgramKind::MyCourses => 6,
                ProgramKind::MyExams => 7,
                ProgramKind::PersonalAddress => 8,
            };
            assert(kinds@[j] == k);
        }
    }
    None
}

/// Whether `lit` stands in `s` at `pos`.
pub fn starts_with_at(s: &[char], pos: usize, lit: &[char]) -> (r: bool)
    ensures
        r == (pos + lit@.len() <= s@.len() && s@.subrange(pos as int, pos + lit@.len()) == lit@),
{
    let n = s.len();
    if pos > n || lit.len() > n - pos {
        return false;
    }
    let mut i: usize = 0;
    while i < lit.len()
        invariant
            pos + lit@.len() <= s@.len(),
            n == s@.len(),
            i <= lit@.len(),
            s@.subrange(pos as int, pos + i) == lit@.subrange(0, i as int),
        decreases lit@.len() - i,
    {
        if s[pos + i] != lit[i] {
            assert(s@.subrange(pos as int, pos + lit@.len())[i as int] != lit@[i as int]);
            return false;
        }
        assert(s@.subrange(pos as int, pos + i + 1) =~= s@.subrange(pos as int, pos + i).push(s@[pos + i]));
        assert(lit@.subrange(0, i + 1) =~= lit@.subrange(0, i as int).push(lit@[i as int]));
        i = i + 1;
    }
    assert(lit@.subrange(0, lit@.len() as int) =~= lit@);
    true
}

/// The first position at or after `pos` that holds `c`, or the end.
pub(crate) fn find_char(s: &[char], pos: usize, c: char) -> (r: usize)
    requires
        pos <= s@.len(),
    ensures
        pos <= r <= s@.len(),
        forall|j: int| pos <= j < r ==> s@[j] != c,
        r < s@.len() ==> s@[r as int] == c,
{
    let mut i = pos;
    while i < s.len() && s[i] != c
        invariant
            pos <= i <= s@.len(),
            forall|j: int| pos <= j < i ==> s@[j] != c,
        decreases s@.len() - i,
    {
        i = i + 1;
    }
    i
}

/// The end of the run of decimal digits that starts at `pos`.
pub(crate) fn skip_digits(s: &[char], pos: usize) -> (r: usize)
    requires
        pos <= s@.len(),
    ensures
        pos <= r <= s@.len(),
        forall|j: int| pos <= j < r ==> is_digit(#[trigger] s@[j]),
        r < s@.len() ==> !is_digit(s@[r as int]),
{
    let mut i = pos;
    while i < s.len() && '0' <= s[i] && s[i] <= '9'
        invariant
            pos <= i <= s@.len(),
            forall|j: int| pos <= j < i ==> is_digit(#[trigger] s@[j]),
        decreases s@.len() - i,
    {
        i = i + 1;
    }
    i
}

/// `url` is the address of a page, with some non-empty session number.
pub open spec fn is_address_of(url: Seq<char>, k: ProgramKind, id: Seq<u8>) -> bool {
    exists|d: Seq<char>| d.len() > 0 && all_digits(d) && url == address(k, id, d)
}

/// Reads the page and the identifier out of an address of the portal.
pub fn decode(url: &str) -> (r: Result<TucanProgram, DecodeError>)
    ensures
        r matches Ok(p) ==> is_address_of(url@, p.kind, p.id@),
        r is Err ==> r == Err::<TucanProgram, DecodeError>(DecodeError::Malformed),
        forall|k: ProgramKind, id: Seq<u8>|
            #[trigger] is_address_of(url@, k, id) ==> (r matches Ok(p) && p.kind == k && p.id@ == id),
{
    let s = chars_of(url);
    let prefix = chars_of(PROGRAM_PREFIX);
    let args = chars_of(ARGUMENTS_PREFIX);
    let sep = chars_of(IDENTIFIER_PREFIX);
    let ghost lp = prefix@.len();
    proof {
        lemma_program_names();
        assert forall|k: ProgramKind, id: Seq<u8>| #[trigger] is_address_of(url@, k, id) implies
            starts_with_at_spec(s@, 0, prefix@) by {
            let d = choose|d: Seq<char>| d.len() > 0 && all_digits(d) && url@ == address(k, id, d);
            assert(s@.subrange(0, lp as int) =~= prefix@);
        }
    }
    if !starts_with_at(&s, 0, &prefix) {
        return Err(DecodeError::Malformed);
    }
    let p1 = prefix.len();
    let e = find_char(&s, p1, '&');
    let name = slice_chars(&s, p1, e);
    let kind = match kind_of_name(&name) {
        Some(k) => k,
        None => {
            proof {
                assert forall|k: ProgramKind, id: Seq<u8>| !is_address_of(url@, k, id) by {
                    if is_address_of(url@, k, id) {
                        lemma_address_parts(url@, k, id, p1 as int, e as int);
                    }
                }
            }
            return Err(DecodeError::Malformed);
        },
    };
    proof {
        assert forall|k: ProgramKind, id: Seq<u8>| #[trigger] is_address_of(url@, k, id) implies k == kind by {
            lemma_address_parts(url@, k, id, p1 as int, e as int);
        }
    }
    if !starts_with_at(&s, e, &args) {
        proof {
            assert forall|k: ProgramKind, id: Seq<u8>| !is_address_of(url@, k, id) by {
                if is_address_of(url@, k, id) {
                    lemma_address_parts(url@, k, id, p1 as int, e as int);
                }
            }
        }
        return Err(DecodeError::Malformed);
    }
    let sl = s.len();
    assert(e + args@.len() <= sl);
    let ds = e + args.len();
    let de = skip_digits(&s, ds);
    if de == ds || !starts_with_at(&s, de, &sep) {
        proof {
            assert forall|k: ProgramKind, id: Seq<u8>| !is_address_of(url@, k, id) by {
                if is_address_of(url@, k, id) {
                    lemma_address_parts(url@, k, id, p1 as int, e as int);
                    lemma_digit_run(url@, k, id, p1 as int, e as int, de as int);
                }
            }
        }
        return Err(DecodeError::Malformed);
    }
    let hs = de + sep.len();
    let h = slice_chars(&s, hs, s.len());
    match decode_hex(&h) {
        Some(id) => {
            proof {
                let d = s@.subrange(ds as int, de as int);
                assert(all_digits(d));
                assert(url@ =~= address(kind, id@, d));
                assert forall|k: ProgramKind, i2: Seq<u8>| #[trigger] is_address_of(url@, k, i2) implies i2
                    == id@ by {
                    lemma_address_parts(url@, k, i2, p1 as int, e as int);
                    lemma_digit_run(url@, k, i2, p1 as int, e as int, de as int);
                }
            }
            Ok(TucanProgram { kind, id })
        },
        None => {
            proof {
                assert forall|k: ProgramKind, id: Seq<u8>| !is_address_of(url@, k, id) by {
                    if is_address_of(url@, k, id) {
                        lemma_address_parts(url@, k, id, p1 as int, e as int);
                        lemma_digit_run(url@, k, id, p1 as int, e as int, de as int);
                    }
                }
            }
            Err(DecodeError::Malformed)
        },
    }
}

pub open spec fn starts_with_at_spec(s: Seq<char>, pos: int, lit: Seq<char>) -> bool {
    pos + lit.len() <= s.len() && s.subrange(pos, pos + lit.len()) == lit
}

/// Where the parts of an address stand: the program name ends at the first `&` after the prefix.
proof fn lemma_address_parts(url: Seq<char>, k: ProgramKind, id: Seq<u8>, p1: int, e: int)
    requires
        is_address_of(url, k, id),
        p1 == PROGRAM_PREFIX@.len(),
        p1 <= e <= url.len(),
        forall|j: int| p1 <= j < e ==> url[j] != '&',
        e < url.len() ==> url[e] == '&',
    ensures
        e == p1 + program_name(k).len(),
        url.subrange(p1, e) == program_name(k),
        starts_with_at_spec(url, e, ARGUMENTS_PREFIX@),
{
    lemma_program_names();
    let d = choose|d: Seq<char>| d.len() > 0 && all_digits(d) && url == address(k, id, d);
    let n = program_name(k);
    let a = ARGUMENTS_PREFIX@;
    assert(url[p1 + n.len()] == a[0]);
    if e < p1 + n.len() {
        assert(url[e] == n[e - p1]);
    }
    assert(url.subrange(p1, p1 + n.len()) =~= n);
    assert(url.subrange(e, e + a.len()) =~= a);
}

/// The session digits of an address run up to the identifier prefix.
proof fn lemma_digit_run(url: Seq<char>, k: ProgramKind, id: Seq<u8>, p1: int, e: int, de: int)
    requires
        is_address_of(url, k, id),
        p1 == PROGRAM_PREFIX@.len(),
        e == p1 + program_name(k).len(),
        e + 13 <= de <= url.len(),
        forall|j: int| e + 13 <= j < de ==> is_digit(#[trigger] url[j]),
        de < url.len() ==> !is_digit(url[de]),
    ensures
        de > e + 13,
        starts_with_at_spec(url, de, IDENTIFIER_PREFIX@),
        url.subrange(de + 3, url.len() as int) == hex_of(id),
{
    lemma_program_names();
    let d = choose|d: Seq<char>| d.len() > 0 && all_digits(d) && url == address(k, id, d);
    let ds = e + 13;
    let b = IDENTIFIER_PREFIX@;
    assert(url[ds] == d[0]);
    assert(is_digit(d[0]));
    assert(url[ds + d.len()] == b[0]);
    if de < ds + d.len() {
        assert(url[de] == d[de - ds]);
    }
    assert(de == ds + d.len());
    assert(url.subrange(de, de + 3) =~= b);
    assert(url.subrange(de + 3, url.len() as int) =~= hex_of(id));
}

/// The identifier of `p`, where `p` is the page `kind`.
pub fn expect_kind(p: TucanProgram, kind: ProgramKind) -> (r: Result<Vec<u8>, DecodeError>)
    ensures
        p.kind == kind ==> (r matches Ok(id) && id@ == p.id@),
        p.kind != kind ==> r == Err::<Vec<u8>, DecodeError>(DecodeError::UnexpectedProgram),
{
    if p.kind == kind {
        Ok(p.id)
    } else {
        Err(DecodeError::UnexpectedProgram)
    }
}

/// The identifier carried by `url`, where it is an address of the page `kind`.
pub fn decode_expecting(url: &str, kind: ProgramKind) -> (r: Result<Vec<u8>, DecodeError>)
    ensures
        r matches Ok(id) ==> is_address_of(url@, kind, id@),
        forall|id: Seq<u8>| #[trigger] is_address_of(url@, kind, id) ==> (r matches Ok(v) && v@ == id),
        (forall|k: ProgramKind, id: Seq<u8>| !#[trigger] is_address_of(url@, k, id)) ==> r == Err::<
            Vec<u8>,
            DecodeError,
        >(DecodeError::Malformed),
        (exists|k: ProgramKind, id: Seq<u8>| k != kind && #[trigger] is_address_of(url@, k, id)) ==> r
            == Err::<Vec<u8>, DecodeError>(DecodeError::UnexpectedProgram),
{
    match decode(url) {
        Ok(p) => expect_kind(p, kind),
        Err(e) => Err(e),
    }
}

/// The link to `href`, a path on the portal's host.
pub fn absolute_link(href: &str) -> (r: String)
    ensures
        r@ == BASE_URL@ + href@,
{
    let mut v: Vec<char> = Vec::new();
    push_str(&mut v, BASE_URL);
    push_str(&mut v, href);
    string_of(&v)
}

/// Decoding an address that `encode` wrote gives back its page and its identifier,
/// whatever the page, the identifier (empty included) and the session.
pub proof fn lemma_round_trip(kind: ProgramKind, id: Seq<u8>, session: Option<u64>)
    ensures
        is_address_of(address(kind, id, session_digits(session)), kind, id),
{
    let d = session_digits(session);
    match session {
        Some(n) => lemma_decimal_digits(n as nat),
        None => lemma_decimal_digits(1),
    }
    assert(d.len() > 0 && all_digits(d) && address(kind, id, session_digits(session)) == address(kind, id, d));
}

} // verus!
