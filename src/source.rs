use vstd::prelude::*;

verus! {

/// Whether `c` has the Unicode `White_Space` property, the set that separates tokens.
pub open spec fn is_ws(c: char) -> bool {
    let u = c as u32;
    (0x09 <= u <= 0x0d) || u == 0x20 || u == 0x85 || u == 0xa0 || u == 0x1680 || (0x2000 <= u
        <= 0x200a) || u == 0x2028 || u == 0x2029 || u == 0x202f || u == 0x205f || u == 0x3000
}

/// The maximal runs of non-whitespace characters of `s`, in order.
pub open spec fn tokens_of(s: Seq<char>) -> Seq<Seq<char>>
    decreases s.len(),
{
    if s.len() == 0 {
        seq![]
    } else {
        let p = s.drop_last();
        let c = s.last();
        let t = tokens_of(p);
        if is_ws(c) {
            t
        } else if p.len() > 0 && !is_ws(p.last()) {
            t.update(t.len() - 1, t.last().push(c))
        } else {
            t.push(seq![c])
        }
    }
}

/// An input made of whitespace alone, or empty, has no tokens.
pub proof fn lemma_blank_input_has_no_tokens(s: Seq<char>)
    requires
        forall|i: int| 0 <= i < s.len() ==> is_ws(#[trigger] s[i]),
    ensures
        tokens_of(s) == Seq::<Seq<char>>::empty(),
    decreases s.len(),
{
    if s.len() > 0 {
        let p = s.drop_last();
        assert(is_ws(s[s.len() - 1]));
        assert forall|i: int| 0 <= i < p.len() implies is_ws(#[trigger] p[i]) by {
            assert(p[i] == s[i]);
        }
        lemma_blank_input_has_no_tokens(p);
    }
}

/// Every token is non-empty and holds no whitespace.
pub proof fn lemma_tokens_well_formed(s: Seq<char>)
    ensures
        forall|i: int|
            0 <= i < tokens_of(s).len() ==> (#[trigger] tokens_of(s)[i]).len() > 0 && forall|j: int|
                0 <= j < tokens_of(s)[i].len() ==> !is_ws(#[trigger] tokens_of(s)[i][j]),
    decreases s.len(),
{
    if s.len() > 0 {
        let p = s.drop_last();
        let c = s.last();
        let t = tokens_of(p);
        lemma_tokens_well_formed(p);
        if !is_ws(c) {
            if p.len() > 0 && !is_ws(p.last()) {
                lemma_last_token_ends_input(p);
                let u = t.update(t.len() - 1, t.last().push(c));
                assert forall|i: int| 0 <= i < u.len() implies (#[trigger] u[i]).len() > 0
                    && forall|j: int| 0 <= j < u[i].len() ==> !is_ws(#[trigger] u[i][j]) by {
                    if i == t.len() - 1 {
                        assert forall|j: int| 0 <= j < u[i].len() implies !is_ws(
                            #[trigger] u[i][j],
                        ) by {
                            if j < t.last().len() {
                                assert(u[i][j] == t[i][j]);
                            }
                        }
                    }
                }
            } else {
                let u = t.push(seq![c]);
                assert forall|i: int| 0 <= i < u.len() implies (#[trigger] u[i]).len() > 0
                    && forall|j: int| 0 <= j < u[i].len() ==> !is_ws(#[trigger] u[i][j]) by {
                    if i < t.len() {
                        assert(u[i] == t[i]);
                    }
                }
            }
        }
    }
}

/// Where the input ends in a non-whitespace character, it has a token.
proof fn lemma_last_token_ends_input(s: Seq<char>)
    requires
        s.len() > 0,
        !is_ws(s.last()),
    ensures
        tokens_of(s).len() > 0,
    decreases s.len(),
{
    let p = s.drop_last();
    let t = tokens_of(p);
    if p.len() > 0 && !is_ws(p.last()) {
        lemma_last_token_ends_input(p);
    }
}

/// Tells whether `c` separates tokens.
pub fn is_whitespace(c: char) -> (r: bool)
    ensures
        r == is_ws(c),
{
    let u = c as u32;
    (0x09 <= u && u <= 0x0d) || u == 0x20 || u == 0x85 || u == 0xa0 || u == 0x1680 || (0x2000 <= u
        && u <= 0x200a) || u == 0x2028 || u == 0x2029 || u == 0x202f || u == 0x205f || u == 0x3000
}

/// Relies on `String::push`: appends the character at the end.
#[verifier::external_body]
fn push_char(s: &mut String, c: char)
    ensures
        final(s)@ == old(s)@.push(c),
{
    s.push(c)
}

/// Splits `s` into its whitespace-separated tokens.
pub fn split_tokens(s: &str) -> (r: Vec<String>)
    ensures
        r@.map_values(|t: String| t@) == tokens_of(s@),
{
    let mut done: Vec<String> = Vec::new();
    let mut cur = String::new();
    let mut in_token = false;
    let ghost mut prev: Seq<char> = seq![];
    for c in it: s.chars()
        invariant
            it.seq() == s@,
            prev == s@.take(it.index() as int),
            in_token <==> cur@.len() > 0,
            in_token <==> (prev.len() > 0 && !is_ws(prev.last())),
            tokens_of(prev) == if cur@.len() == 0 {
                done@.map_values(|t: String| t@)
            } else {
                done@.map_values(|t: String| t@).push(cur@)
            },
    {
        let ghost next = s@.take(it.index() + 1);
        let ghost old_done = done@.map_values(|t: String| t@);
        let ghost old_cur = cur@;
        assert(next.drop_last() =~= prev);
        assert(next.last() == c);
        if is_whitespace(c) {
            if in_token {
                done.push(cur);
                cur = String::new();
                in_token = false;
                assert(done@.map_values(|t: String| t@) =~= old_done.push(old_cur));
            }
        } else {
            push_char(&mut cur, c);
            if in_token {
                assert(old_done.push(old_cur).update(old_done.len() as int, old_cur.push(c))
                    =~= old_done.push(cur@));
            } else {
                assert(cur@ =~= seq![c]);
            }
            in_token = true;
        }
        proof {
            prev = next;
        }
    }
    assert(prev =~= s@);
    if in_token {
        let ghost old_done = done@.map_values(|t: String| t@);
        done.push(cur);
        assert(done@.map_values(|t: String| t@) =~= old_done.push(cur@));
    }
    done
}

/// A depletable sequence of whitespace-separated tokens.
pub trait Source {
    /// The tokens not yet consumed, in order.
    spec fn remaining(&self) -> Seq<Seq<char>>;

    /// Gets the next token and consumes it, or `None` when no token remains.
    fn next_token(&mut self) -> (r: Option<&str>)
        ensures
            r is None <==> old(self).remaining().len() == 0,
            old(self).remaining().len() == 0 ==> r is None && final(self).remaining() == old(
                self,
            ).remaining(),
            old(self).remaining().len() > 0 ==> r is Some && r->0@ == old(self).remaining()[0]
                && final(self).remaining() == old(self).remaining().drop_first(),
    ;

    /// Tells whether no token remains, consuming none.
    fn is_empty(&mut self) -> (r: bool)
        ensures
            r == (old(self).remaining().len() == 0),
            final(self).remaining() == old(self).remaining(),
    ;

    /// Gets the next token and consumes it; there must be one.
    fn next_token_unwrap(&mut self) -> (r: &str)
        requires
            old(self).remaining().len() > 0,
        ensures
            r@ == old(self).remaining()[0],
            final(self).remaining() == old(self).remaining().drop_first(),
    {
        match self.next_token() {
            Some(t) => t,
            None => {
                proof {
                    assert(false);
                }
                ""
            },
        }
    }
}

/// A source that holds the whole input, split once into tokens, and a cursor into them.
pub struct OnceSource {
    tokens: Vec<String>,
    pos: usize,
}

impl OnceSource {
    /// The tokens of the input, consumed or not.
    pub closed spec fn all_tokens(&self) -> Seq<Seq<char>> {
        self.tokens@.map_values(|t: String| t@)
    }

    /// How many tokens have been consumed.
    pub closed spec fn consumed(&self) -> nat {
        self.pos as nat
    }

    /// The cursor never passes the end of the tokens.
    #[verifier::type_invariant]
    closed spec fn wf(&self) -> bool {
        self.pos <= self.tokens@.len()
    }

    /// Takes the whole input and splits it into tokens.
    pub fn new(input: &str) -> (r: OnceSource)
        ensures
            r.all_tokens() == tokens_of(input@),
            r.consumed() == 0,
            r.remaining() == tokens_of(input@),
    {
        let r = OnceSource { tokens: split_tokens(input), pos: 0 };
        assert(r.remaining() =~= r.all_tokens());
        r
    }
}

impl Source for OnceSource {
    closed spec fn remaining(&self) -> Seq<Seq<char>> {
        self.all_tokens().skip(self.pos as int)
    }

    fn next_token(&mut self) -> (r: Option<&str>) {
        proof {
            use_type_invariant(&*self);
        }
        if self.pos < self.tokens.len() {
            let i = self.pos;
            self.pos = self.pos + 1;
            Some(self.tokens[i].as_str())
        } else {
            None
        }
    }

    fn is_empty(&mut self) -> (r: bool) {
        proof {
            use_type_invariant(&*self);
        }
        self.pos >= self.tokens.len()
    }
}

} // verus!
