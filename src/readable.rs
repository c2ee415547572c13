use vstd::prelude::*;
use vstd::string::*;
use vstd::utf8::encode_utf8;
use crate::number::{int_in_range, parse_int, MAGNITUDE_CAP};
use crate::source::{Source, tokens_of};

verus! {

/// Why a read failed, as contracts speak of it.
pub enum Failure {
    /// No token remained.
    Exhausted,
    /// This token does not denote a value of the requested kind.
    Invalid(Seq<char>),
}

/// Why a read failed.
#[derive(Debug, PartialEq, Eq)]
pub enum ReadError {
    /// A value was requested but no token remained.
    Exhausted,
    /// The token cannot be converted to the requested kind.
    Invalid { token: String },
}

impl View for ReadError {
    type V = Failure;

    open spec fn view(&self) -> Failure {
        match self {
            ReadError::Exhausted => Failure::Exhausted,
            ReadError::Invalid { token } => Failure::Invalid(token@),
        }
    }
}

/// What a read from `before` is: its result, and how many tokens it consumes.
pub type Outcome<V> = (Result<V, Failure>, nat);

/// `r` is the result that `o` describes, and the source went from `before` to `after`
/// by consuming the tokens that `o` counts.
pub open spec fn performs<T: View>(
    o: Outcome<T::V>,
    before: Seq<Seq<char>>,
    after: Seq<Seq<char>>,
    r: Result<T, ReadError>,
) -> bool {
    &&& o.1 <= before.len()
    &&& after == before.skip(o.1 as int)
    &&& match r {
        Ok(v) => o.0 == Ok::<T::V, Failure>(v@),
        Err(e) => o.0 == Err::<T::V, Failure>(e@),
    }
}

/// One token, read by `f`: exhausted where none remains.
pub open spec fn one_token<V>(toks: Seq<Seq<char>>, f: spec_fn(Seq<char>) -> Option<V>) -> Outcome<V> {
    if toks.len() == 0 {
        (Err(Failure::Exhausted), 0)
    } else {
        match f(toks[0]) {
            Some(v) => (Ok(v), 1),
            None => (Err(Failure::Invalid(toks[0])), 1),
        }
    }
}

/// A kind of value that can be read from a token source.
pub trait Readable {
    type Output: View;

    /// What reading one value of this kind from the tokens `toks` gives.
    spec fn spec_read(toks: Seq<Seq<char>>) -> Outcome<<Self::Output as View>::V>;

    /// Reads one value of this kind, consuming the tokens it takes.
    fn read<S: Source>(source: &mut S) -> (r: Result<Self::Output, ReadError>)
        ensures
            performs(Self::spec_read(old(source).remaining()), old(source).remaining(), final(source).remaining(), r),
    ;
}

/// Reads one token as a decimal integer within `[lo, hi]`.
fn read_int<S: Source>(source: &mut S, lo: i128, hi: i128) -> (r: Result<i128, ReadError>)
    requires
        -MAGNITUDE_CAP <= lo <= 0 <= hi <= MAGNITUDE_CAP,
    ensures
        old(source).remaining().len() == 0 ==> r == Err::<i128, ReadError>(ReadError::Exhausted),
        final(source).remaining() == old(source).remaining().skip(
            if old(source).remaining().len() == 0 {
                0
            } else {
                1
            },
        ),
        old(source).remaining().len() > 0 ==> match r {
            Ok(v) => int_in_range(old(source).remaining()[0], lo as int, hi as int) == Some(
                v as int,
            ),
            Err(e) => int_in_range(old(source).remaining()[0], lo as int, hi as int) is None
                && e@ == Failure::Invalid(old(source).remaining()[0]),
        },
{
    let ghost before = source.remaining();
    assert(before.skip(0) =~= before);
    assert(before.len() > 0 ==> before.skip(1) =~= before.drop_first());
    match source.next_token() {
        None => Err(ReadError::Exhausted),
        Some(t) => match parse_int(t, lo, hi) {
            Some(v) => Ok(v),
            None => Err(ReadError::Invalid { token: t.to_owned() }),
        },
    }
}

impl Readable for u8 {
    type Output = u8;

    open spec fn spec_read(toks: Seq<Seq<char>>) -> Outcome<u8> {
        one_token(
            toks,
            |t: Seq<char>|
                match int_in_range(t, 0 as int, 255 as int) {
                    Some(v) => Some(v as u8),
                    None => None,
                },
        )
    }

    fn read<S: Source>(source: &mut S) -> (r: Result<u8, ReadError>) {
        match read_int(source, 0 as i128, 255 as i128) {
            Ok(v) => Ok(v as u8),
            Err(e) => Err(e),
        }
    }
}

impl Readable for u16 {
    type Output = u16;

    open spec fn spec_read(toks: Seq<Seq<char>>) -> Outcome<u16> {
        one_token(
            toks,
            |t: Seq<char>|
                match int_in_range(t, 0 as int, 0xffff as int) {
                    Some(v) => Some(v as u16),
                    None => None,
                },
        )
    }

    fn read<S: Source>(source: &mut S) -> (r: Result<u16, ReadError>) {
        match read_int(source, 0 as i128, 0xffff as i128) {
            Ok(v) => Ok(v as u16),
            Err(e) => Err(e),
        }
    }
}

impl Readable for u32 {
    type Output = u32;

    open spec fn spec_read(toks: Seq<Seq<char>>) -> Outcome<u32> {
        one_token(
            toks,
            |t: Seq<char>|
                match int_in_range(t, 0 as int, 0xffff_ffff as int) {
                    Some(v) => Some(v as u32),
                    None => None,
                },
        )
    }

    fn read<S: Source>(source: &mut S) -> (r: Result<u32, ReadError>) {
        match read_int(source, 0 as i128, 0xffff_ffff as i128) {
            Ok(v) => Ok(v as u32),
            Err(e) => Err(e),
        }
    }
}

impl Readable for u64 {
    type Output = u64;

    open spec fn spec_read(toks: Seq<Seq<char>>) -> Outcome<u64> {
        one_token(
            toks,
            |t: Seq<char>|
                match int_in_range(t, 0 as int, 0xffff_ffff_ffff_ffff as int) {
                    Some(v) => Some(v as u64),
                    None => None,
                },
        )
    }

    fn read<S: Source>(source: &mut S) -> (r: Result<u64, ReadError>) {
        match read_int(source, 0 as i128, 0xffff_ffff_ffff_ffff as i128) {
            Ok(v) => Ok(v as u64),
            Err(e) => Err(e),
        }
    }
}

impl Readable for usize {
    type Output = usize;

    open spec fn spec_read(toks: Seq<Seq<char>>) -> Outcome<usize> {
        one_token(
            toks,
            |t: Seq<char>|
                match int_in_range(t, 0 as int, usize::MAX as int) {
                    Some(v) => Some(v as usize),
                    None => None,
                },
        )
    }

    fn read<S: Source>(source: &mut S) -> (r: Result<usize, ReadError>) {
        match read_int(source, 0 as i128, usize::MAX as i128) {
            Ok(v) => Ok(v as usize),
            Err(e) => Err(e),
        }
    }
}

impl Readable for i8 {
    type Output = i8;

    open spec fn spec_read(toks: Seq<Seq<char>>) -> Outcome<i8> {
        one_token(
            toks,
            |t: Seq<char>|
                match int_in_range(t, -0x80 as int, 0x7f as int) {
                    Some(v) => Some(v as i8),
                    None => None,
                },
        )
    }

    fn read<S: Source>(source: &mut S) -> (r: Result<i8, ReadError>) {
        match read_int(source, -0x80 as i128, 0x7f as i128) {
            Ok(v) => Ok(v as i8),
            Err(e) => Err(e),
        }
    }
}

impl Readable for i16 {
    type Output = i16;

    open spec fn spec_read(toks: Seq<Seq<char>>) -> Outcome<i16> {
        one_token(
            toks,
            |t: Seq<char>|
                match int_in_range(t, -0x8000 as int, 0x7fff as int) {
                    Some(v) => Some(v as i16),
                    None => None,
                },
        )
    }

    fn read<S: Source>(source: &mut S) -> (r: Result<i16, ReadError>) {
        match read_int(source, -0x8000 as i128, 0x7fff as i128) {
            Ok(v) => Ok(v as i16),
            Err(e) => Err(e),
        }
    }
}

impl Readable for i32 {
    type Output = i32;

    open spec fn spec_read(toks: Seq<Seq<char>>) -> Outcome<i32> {
        one_token(
            toks,
            |t: Seq<char>|
                match int_in_range(t, -0x8000_0000 as int, 0x7fff_ffff as int) {
                    Some(v) => Some(v as i32),
                    None => None,
                },
        )
    }

    fn read<S: Source>(source: &mut S) -> (r: Result<i32, ReadError>) {
        match read_int(source, -0x8000_0000 as i128, 0x7fff_ffff as i128) {
            Ok(v) => Ok(v as i32),
            Err(e) => Err(e),
        }
    }
}

impl Readable for i64 {
    type Output = i64;

    open spec fn spec_read(toks: Seq<Seq<char>>) -> Outcome<i64> {
        one_token(
            toks,
            |t: Seq<char>|
                match int_in_range(t, -0x8000_0000_0000_0000 as int, 0x7fff_ffff_ffff_ffff as int) {
                    Some(v) => Some(v as i64),
                    None => None,
                },
        )
    }

    fn read<S: Source>(source: &mut S) -> (r: Result<i64, ReadError>) {
        match read_int(source, -0x8000_0000_0000_0000 as i128, 0x7fff_ffff_ffff_ffff as i128) {
            Ok(v) => Ok(v as i64),
            Err(e) => Err(e),
        }
    }
}

impl Readable for isize {
    type Output = isize;

    open spec fn spec_read(toks: Seq<Seq<char>>) -> Outcome<isize> {
        one_token(
            toks,
            |t: Seq<char>|
                match int_in_range(t, isize::MIN as int, isize::MAX as int) {
                    Some(v) => Some(v as isize),
                    None => None,
                },
        )
    }

    fn read<S: Source>(source: &mut S) -> (r: Result<isize, ReadError>) {
        match read_int(source, isize::MIN as i128, isize::MAX as i128) {
            Ok(v) => Ok(v as isize),
            Err(e) => Err(e),
        }
    }
}

proof fn lemma_skip_one(s: Seq<Seq<char>>)
    ensures
        s.skip(0) == s,
        s.len() > 0 ==> s.skip(1) == s.drop_first(),
{
    assert(s.skip(0) =~= s);
    assert(s.len() > 0 ==> s.skip(1) =~= s.drop_first());
}

impl Readable for char {
    type Output = char;

    /// A token of exactly one character.
    open spec fn spec_read(toks: Seq<Seq<char>>) -> Outcome<char> {
        one_token(
            toks,
            |t: Seq<char>|
                if t.len() == 1 {
                    Some(t[0])
                } else {
                    None
                },
        )
    }

    fn read<S: Source>(source: &mut S) -> (r: Result<char, ReadError>) {
        proof {
            lemma_skip_one(source.remaining());
        }
        match source.next_token() {
            None => Err(ReadError::Exhausted),
            Some(t) => {
                if t.unicode_len() == 1 {
                    Ok(t.get_char(0))
                } else {
                    Err(ReadError::Invalid { token: t.to_owned() })
                }
            },
        }
    }
}

impl Readable for String {
    type Output = String;

    /// Any token, as it stands.
    open spec fn spec_read(toks: Seq<Seq<char>>) -> Outcome<Seq<char>> {
        one_token(toks, |t: Seq<char>| Some(t))
    }

    fn read<S: Source>(source: &mut S) -> (r: Result<String, ReadError>) {
        proof {
            lemma_skip_one(source.remaining());
        }
        match source.next_token() {
            None => Err(ReadError::Exhausted),
            Some(t) => Ok(t.to_owned()),
        }
    }
}

/// The kind of a token read as its sequence of characters.
pub struct Chars;

impl Readable for Chars {
    type Output = Vec<char>;

    open spec fn spec_read(toks: Seq<Seq<char>>) -> Outcome<Seq<char>> {
        one_token(toks, |t: Seq<char>| Some(t))
    }

    fn read<S: Source>(source: &mut S) -> (r: Result<Vec<char>, ReadError>) {
        proof {
            lemma_skip_one(source.remaining());
        }
        match source.next_token() {
            None => Err(ReadError::Exhausted),
            Some(t) => {
                let mut out: Vec<char> = Vec::new();
                for c in it: t.chars()
                    invariant
                        it.seq() == t@,
                        out@ == t@.take(it.index() as int),
                {
                    out.push(c);
                    assert(out@ =~= t@.take(it.index() + 1));
                }
                assert(out@ =~= t@);
                Ok(out)
            },
        }
    }
}

/// The kind of a token read as its UTF-8 bytes.
pub struct Bytes;

impl Readable for Bytes {
    type Output = Vec<u8>;

    open spec fn spec_read(toks: Seq<Seq<char>>) -> Outcome<Seq<u8>> {
        one_token(toks, |t: Seq<char>| Some(encode_utf8(t)))
    }

    fn read<S: Source>(source: &mut S) -> (r: Result<Vec<u8>, ReadError>) {
        proof {
            lemma_skip_one(source.remaining());
        }
        match source.next_token() {
            None => Err(ReadError::Exhausted),
            Some(t) => Ok(t.as_bytes_vec()),
        }
    }
}

/// The views of the values `v`, in order.
pub open spec fn views<T: View>(v: Seq<T>) -> Seq<T::V> {
    v.map_values(|x: T| x@)
}

/// `o` with the values `vs` put in front of its result and `c` tokens added to its count.
pub open spec fn after_prefix<V>(vs: Seq<V>, c: nat, o: Outcome<Seq<V>>) -> Outcome<Seq<V>> {
    (
        match o.0 {
            Ok(ws) => Ok(vs + ws),
            Err(e) => Err(e),
        },
        c + o.1,
    )
}

/// What reading `n` values of kind `K` one after another from `toks` gives: all of them, or
/// the first failure.
pub open spec fn read_many<K: Readable>(toks: Seq<Seq<char>>, n: nat) -> Outcome<
    Seq<<K::Output as View>::V>,
>
    decreases n,
{
    if n == 0 {
        (Ok(seq![]), 0)
    } else {
        let (first, k) = K::spec_read(toks);
        match first {
            Err(e) => (Err(e), k),
            Ok(v) => after_prefix(seq![v], k, read_many::<K>(toks.skip(k as int), (n - 1) as nat)),
        }
    }
}

/// `r` is the sequence result that `o` describes, and the source went from `before` to
/// `after` by consuming the tokens that `o` counts.
pub open spec fn performs_many<T: View>(
    o: Outcome<Seq<T::V>>,
    before: Seq<Seq<char>>,
    after: Seq<Seq<char>>,
    r: Result<Vec<T>, ReadError>,
) -> bool {
    &&& o.1 <= before.len()
    &&& after == before.skip(o.1 as int)
    &&& match r {
        Ok(v) => o.0 == Ok::<Seq<T::V>, Failure>(views(v@)),
        Err(e) => o.0 == Err::<Seq<T::V>, Failure>(e@),
    }
}

/// Reads `len` values of kind `K`, in order.
pub fn read_array<K: Readable, S: Source>(source: &mut S, len: usize) -> (r: Result<
    Vec<K::Output>,
    ReadError,
>)
    ensures
        performs_many(
            read_many::<K>(old(source).remaining(), len as nat),
            old(source).remaining(),
            final(source).remaining(),
            r,
        ),
{
    let ghost before = source.remaining();
    let ghost mut c: nat = 0;
    let mut out: Vec<K::Output> = Vec::new();
    let mut i: usize = 0;
    assert(before.skip(0) =~= before);
    assert(views(out@) =~= seq![]);
    while i < len
        invariant
            i <= len,
            before == old(source).remaining(),
            c <= before.len(),
            source.remaining() == before.skip(c as int),
            read_many::<K>(before, len as nat) == after_prefix(
                views(out@),
                c,
                read_many::<K>(before.skip(c as int), (len - i) as nat),
            ),
        decreases len - i,
    {
        let ghost cur = source.remaining();
        let x = K::read(source);
        let ghost k = K::spec_read(cur).1;
        assert(cur.skip(k as int) =~= before.skip((c + k) as int));
        match x {
            Err(e) => {
                return Err(e);
            },
            Ok(v) => {
                let ghost vs = views(out@);
                let ghost tail = read_many::<K>(before.skip((c + k) as int), (len - i - 1) as nat);
                out.push(v);
                assert(views(out@) =~= vs.push(v@));
                assert(tail.0 is Ok ==> vs.push(v@) + tail.0->Ok_0 =~= vs + (seq![v@] + tail.0->Ok_0));
                proof {
                    c = c + k;
                }
                i = i + 1;
            },
        }
    }
    assert(views(out@) + seq![] =~= views(out@));
    Ok(out)
}

/// What reading a count `n` and then `n` values of kind `K` from `toks` gives.
pub open spec fn read_counted_many<K: Readable>(toks: Seq<Seq<char>>) -> Outcome<
    Seq<<K::Output as View>::V>,
> {
    let (n, k) = usize::spec_read(toks);
    match n {
        Err(e) => (Err(e), k),
        Ok(n) => after_prefix(seq![], k, read_many::<K>(toks.skip(k as int), n as nat)),
    }
}

/// Reads a count, then that many values of kind `K`, in order.
pub fn read_counted<K: Readable, S: Source>(source: &mut S) -> (r: Result<
    Vec<K::Output>,
    ReadError,
>)
    ensures
        performs_many(
            read_counted_many::<K>(old(source).remaining()),
            old(source).remaining(),
            final(source).remaining(),
            r,
        ),
{
    let ghost before = source.remaining();
    let len = match usize::read(source) {
        Ok(n) => n,
        Err(e) => {
            return Err(e);
        },
    };
    let ghost k = usize::spec_read(before).1;
    let ghost mid = source.remaining();
    let r = read_array::<K, S>(source, len);
    assert(mid.skip(read_many::<K>(mid, len as nat).1 as int) =~= before.skip(
        (k + read_many::<K>(mid, len as nat).1) as int,
    ));
    proof {
        if r is Ok {
            assert(seq![] + views(r->Ok_0@) =~= views(r->Ok_0@));
        }
    }
    r
}

/// Reading `n` values of kind `i64` from tokens that each write a decimal integer in its
/// range gives those integers, in the order of the tokens, and consumes exactly `n` tokens.
pub proof fn lemma_integers_in_order(toks: Seq<Seq<char>>, n: nat)
    requires
        n <= toks.len(),
        forall|i: int|
            0 <= i < n ==> (#[trigger] int_in_range(toks[i], i64::MIN as int, i64::MAX as int)) is Some,
    ensures
        read_many::<i64>(toks, n) == (
            Ok::<Seq<i64>, Failure>(
                Seq::new(
                    n,
                    |i: int| int_in_range(toks[i], i64::MIN as int, i64::MAX as int)->Some_0 as i64,
                ),
            ),
            n,
        ),
    decreases n,
{
    if n > 0 {
        let rest = toks.skip(1);
        assert forall|i: int| 0 <= i < n - 1 implies (#[trigger] int_in_range(
            rest[i],
            i64::MIN as int,
            i64::MAX as int,
        )) is Some by {
            assert(rest[i] == toks[i + 1]);
            assert(int_in_range(toks[i + 1], i64::MIN as int, i64::MAX as int) is Some);
        }
        lemma_integers_in_order(rest, (n - 1) as nat);
        assert(int_in_range(toks[0], i64::MIN as int, i64::MAX as int) is Some);
        let f = |i: int| int_in_range(toks[i], i64::MIN as int, i64::MAX as int)->Some_0 as i64;
        let g = |i: int| int_in_range(rest[i], i64::MIN as int, i64::MAX as int)->Some_0 as i64;
        assert(seq![f(0)] + Seq::new((n - 1) as nat, g) =~= Seq::new(n, f)) by {
            assert forall|i: int| 1 <= i < n implies g(i - 1) == #[trigger] f(i) by {
                assert(rest[i - 1] == toks[i]);
            }
        }
        assert(i64::spec_read(toks) == (Ok::<i64, Failure>(f(0)), 1nat));
    } else {
        let f = |i: int| int_in_range(toks[i], i64::MIN as int, i64::MAX as int)->Some_0 as i64;
        assert(Seq::new(0, f) =~= seq![]);
    }
}

/// The integers that whitespace-separated decimal integers in `s` write are read back, in
/// the order in which they stand, and none is left over.
pub proof fn lemma_input_integers_in_order(s: Seq<char>)
    requires
        forall|i: int|
            0 <= i < tokens_of(s).len() ==> (#[trigger] int_in_range(
                tokens_of(s)[i],
                i64::MIN as int,
                i64::MAX as int,
            )) is Some,
    ensures
        read_many::<i64>(tokens_of(s), tokens_of(s).len()).0 == Ok::<Seq<i64>, Failure>(
            Seq::new(
                tokens_of(s).len(),
                |i: int| int_in_range(tokens_of(s)[i], i64::MIN as int, i64::MAX as int)->Some_0 as i64,
            ),
        ),
        tokens_of(s).skip(read_many::<i64>(tokens_of(s), tokens_of(s).len()).1 as int).len() == 0,
{
    lemma_integers_in_order(tokens_of(s), tokens_of(s).len());
}

/// A scalar requested where no token remains is the exhausted-input error, never a value.
pub proof fn lemma_exhausted_scalar(toks: Seq<Seq<char>>)
    requires
        toks.len() == 0,
    ensures
        u8::spec_read(toks) == (Err::<u8, Failure>(Failure::Exhausted), 0nat),
        u16::spec_read(toks) == (Err::<u16, Failure>(Failure::Exhausted), 0nat),
        u32::spec_read(toks) == (Err::<u32, Failure>(Failure::Exhausted), 0nat),
        u64::spec_read(toks) == (Err::<u64, Failure>(Failure::Exhausted), 0nat),
        usize::spec_read(toks) == (Err::<usize, Failure>(Failure::Exhausted), 0nat),
        i8::spec_read(toks) == (Err::<i8, Failure>(Failure::Exhausted), 0nat),
        i16::spec_read(toks) == (Err::<i16, Failure>(Failure::Exhausted), 0nat),
        i32::spec_read(toks) == (Err::<i32, Failure>(Failure::Exhausted), 0nat),
        i64::spec_read(toks) == (Err::<i64, Failure>(Failure::Exhausted), 0nat),
        isize::spec_read(toks) == (Err::<isize, Failure>(Failure::Exhausted), 0nat),
        char::spec_read(toks) == (Err::<char, Failure>(Failure::Exhausted), 0nat),
        String::spec_read(toks) == (Err::<Seq<char>, Failure>(Failure::Exhausted), 0nat),
{
}

/// A token that does not write an integer of the requested type is the conversion error for
/// that token, and no value comes out.
pub proof fn lemma_invalid_integer(toks: Seq<Seq<char>>)
    requires
        toks.len() > 0,
    ensures
        int_in_range(toks[0], 0 as int, 255 as int) is None ==> u8::spec_read(toks) == (
            Err::<u8, Failure>(Failure::Invalid(toks[0])),
            1nat,
        ),
        int_in_range(toks[0], 0 as int, 0xffff as int) is None ==> u16::spec_read(toks) == (
            Err::<u16, Failure>(Failure::Invalid(toks[0])),
            1nat,
        ),
        int_in_range(toks[0], 0 as int, 0xffff_ffff as int) is None ==> u32::spec_read(toks) == (
            Err::<u32, Failure>(Failure::Invalid(toks[0])),
            1nat,
        ),
        int_in_range(toks[0], 0 as int, 0xffff_ffff_ffff_ffff as int) is None ==> u64::spec_read(toks) == (
            Err::<u64, Failure>(Failure::Invalid(toks[0])),
            1nat,
        ),
        int_in_range(toks[0], 0 as int, usize::MAX as int) is None ==> usize::spec_read(toks) == (
            Err::<usize, Failure>(Failure::Invalid(toks[0])),
            1nat,
        ),
        int_in_range(toks[0], -0x80 as int, 0x7f as int) is None ==> i8::spec_read(toks) == (
            Err::<i8, Failure>(Failure::Invalid(toks[0])),
            1nat,
        ),
        int_in_range(toks[0], -0x8000 as int, 0x7fff as int) is None ==> i16::spec_read(toks) == (
            Err::<i16, Failure>(Failure::Invalid(toks[0])),
            1nat,
        ),
        int_in_range(toks[0], -0x8000_0000 as int, 0x7fff_ffff as int) is None ==> i32::spec_read(toks) == (
            Err::<i32, Failure>(Failure::Invalid(toks[0])),
            1nat,
        ),
        int_in_range(toks[0], -0x8000_0000_0000_0000 as int, 0x7fff_ffff_ffff_ffff as int) is None ==> i64::spec_read(toks) == (
            Err::<i64, Failure>(Failure::Invalid(toks[0])),
            1nat,
        ),
        int_in_range(toks[0], isize::MIN as int, isize::MAX as int) is None ==> isize::spec_read(toks) == (
            Err::<isize, Failure>(Failure::Invalid(toks[0])),
            1nat,
        ),
{
}

} // verus!
