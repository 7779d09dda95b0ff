//! Persistent variables: define once, substitute everywhere.
//!
//! A [`Session`] owns up to 26 single-letter variable definitions. Each
//! definition is a compiled bytecode body; using that variable in a later
//! compilation splices the body in place (recursively, with cycle
//! rejection), and definitions that are fully numeric collapse to a
//! single literal.
//!
//! Definitions are stored lazily: bodies keep their `VAR` opcodes, so
//! redefining `a` changes what later compilations of `x` produce.
use vstd::prelude::*;
use vstd::string::{StringSliceAdditionalSpecFns, StrSliceExecFns};
use vstd::utf8::encode_utf8;
use crate::compile::{compile_into, compile_into_ex, compile_spec};
use crate::config::Config;
use crate::error::Error;
use crate::fold::{bit_of, check_acyclic, cycle_walk, vars_ok};
use crate::lex::is_lower;
use crate::resolve::{NoResolve, Resolve};
use crate::stream::{lemma_compile_ok, lemma_stream_vars};
use crate::writer::written_as;
use crate::balance::balanced;
use crate::acyclic::acyclic;

verus! {

/// Outcome of [`Session::compile_line`].
#[derive(Clone, Copy, Debug, PartialEq, Eq, Structural)]
pub enum Line {
    /// The line was `x = expr`; the definition's body is `len` bytes.
    Defined { var: u8, len: usize },
    /// The line was a plain expression compiling to `len` bytes.
    Expression(usize),
}

/// Persistent single-letter variable store with substitution.
///
/// `VAR_BYTES` is each definition's storage budget. The definitions live
/// in inline arrays, one slot of `VAR_BYTES` bytes per letter: a session
/// never allocates.
pub struct Session<const VAR_BYTES: usize> {
    cfg: Config,
    lens: [usize; 26],
    bodies: [[u8; VAR_BYTES]; 26],
}

/// The definitions `defs` with `var` tentatively bound to `body`.
pub open spec fn probe_defs(defs: Map<u8, Seq<u8>>, var: u8, body: Seq<u8>) -> spec_fn(u8) -> Option<Seq<u8>> {
    |v: u8|
        if v == var {
            Some(body)
        } else if defs.contains_key(v) {
            Some(defs[v])
        } else {
            None
        }
}

/// Defining `var` as `src` over definitions `defs`: the result and the
/// definitions afterwards. The body is compiled without substitution
/// into `buf` bytes; a body through which a reference leads back to
/// `var` is refused; any failure leaves the definitions as they were.
/// (An empty body, which no successful compilation produces, would leave
/// `var` undefined.)
pub open spec fn define_spec(
    defs: Map<u8, Seq<u8>>,
    cfg: Config,
    var: u8,
    src: Seq<u8>,
    buf: nat,
    stack_len: nat,
) -> (Result<usize, Error>, Map<u8, Seq<u8>>) {
    if !is_lower(var) {
        (Err(Error::BadAssignment { pos: 0 }), defs)
    } else {
        let c = compile_spec(&NoResolve, cfg, src, buf, stack_len, false);
        match c.err {
            Some(e) => (Err(e), defs),
            None => match cycle_walk(probe_defs(defs, var, c.out), c.out, bit_of(var), 0) {
                Some(e) => (Err(e), defs),
                None => (
                    Ok(c.out.len() as usize),
                    if c.out.len() > 0 {
                        defs.insert(var, c.out)
                    } else {
                        defs.remove(var)
                    },
                ),
            },
        }
    }
}

/// Number of letters among the first `k` of the alphabet that `defs`
/// defines.
pub open spec fn count_defined(defs: Map<u8, Seq<u8>>, k: nat) -> nat
    decreases k,
{
    if k == 0 {
        0
    } else {
        count_defined(defs, (k - 1) as nat) + if defs.contains_key((96 + k) as u8) {
            1nat
        } else {
            0nat
        }
    }
}

/// The length a line's outcome reports.
pub open spec fn line_len(r: Result<Line, Error>) -> Result<usize, Error> {
    match r {
        Ok(Line::Expression(n)) => Ok(n),
        Ok(Line::Defined { var, len }) => Ok(len),
        Err(e) => Err(e),
    }
}

/// Spaces and tabs from `i` on.
pub open spec fn skip_blank(cs: Seq<char>, i: int) -> int
    decreases cs.len() - i,
{
    if 0 <= i < cs.len() && (cs[i] == ' ' || cs[i] == '\t') {
        skip_blank(cs, i + 1)
    } else {
        i
    }
}

pub open spec fn is_lower_char(c: char) -> bool {
    'a' <= c <= 'z'
}

/// `x = rest` with optional spaces and tabs: the letter and the rest.
pub open spec fn assignment_of(cs: Seq<char>) -> Option<(u8, Seq<char>)> {
    let i = skip_blank(cs, 0);
    if 0 <= i < cs.len() && is_lower_char(cs[i]) {
        let j = skip_blank(cs, i + 1);
        if j < cs.len() && cs[j] == '=' {
            Some((cs[i] as u8, cs.subrange(j + 1, cs.len() as int)))
        } else {
            None
        }
    } else {
        None
    }
}

/// Unicode white space, as `char::is_whitespace` classifies it.
pub open spec fn is_space_char(c: char) -> bool {
    ||| c == ' '
    ||| ('\t' <= c <= '\r')
    ||| c == '\u{85}'
    ||| c == '\u{a0}'
    ||| c == '\u{1680}'
    ||| ('\u{2000}' <= c <= '\u{200a}')
    ||| c == '\u{2028}'
    ||| c == '\u{2029}'
    ||| c == '\u{202f}'
    ||| c == '\u{205f}'
    ||| c == '\u{3000}'
}

/// End of the white space starting at `i`.
pub open spec fn space_end(cs: Seq<char>, i: int) -> int
    decreases cs.len() - i,
{
    if 0 <= i < cs.len() && is_space_char(cs[i]) {
        space_end(cs, i + 1)
    } else {
        i
    }
}

/// Start of the white space ending at `j`, not going below `lo`.
pub open spec fn space_start(cs: Seq<char>, lo: int, j: int) -> int
    decreases j - lo,
{
    if lo < j && j <= cs.len() && is_space_char(cs[j - 1]) {
        space_start(cs, lo, j - 1)
    } else {
        j
    }
}

/// Index of the first `=` at or after `i` (the length when none).
pub open spec fn first_eq(cs: Seq<char>, i: int) -> int
    decreases cs.len() - i,
{
    if i < 0 || i >= cs.len() {
        cs.len() as int
    } else if cs[i] == '=' {
        i
    } else {
        first_eq(cs, i + 1)
    }
}

/// The line holds an `=` whose left side, trimmed of white space, is not
/// one lowercase letter.
pub open spec fn misplaced_eq(cs: Seq<char>) -> bool {
    let t0 = space_end(cs, 0);
    let e = first_eq(cs, t0);
    &&& e < cs.len()
    &&& !(space_start(cs, t0, e) == t0 + 1 && is_lower_char(cs[t0]))
}

/// The byte offset of the line's first `=`.
pub open spec fn eq_offset(cs: Seq<char>) -> nat {
    encode_utf8(cs.subrange(0, first_eq(cs, space_end(cs, 0)))).len()
}

proof fn lemma_skip_blank(cs: Seq<char>, i: int)
    requires
        0 <= i <= cs.len(),
    ensures
        i <= skip_blank(cs, i) <= cs.len(),
        forall|k: int| i <= k < skip_blank(cs, i) ==> cs[k] == ' ' || cs[k] == '\t',
    decreases cs.len() - i,
{
    if i < cs.len() && (cs[i] == ' ' || cs[i] == '\t') {
        lemma_skip_blank(cs, i + 1);
    }
}

proof fn lemma_space_end(cs: Seq<char>, i: int)
    requires
        0 <= i <= cs.len(),
    ensures
        i <= space_end(cs, i) <= cs.len(),
        space_end(cs, i) < cs.len() ==> !is_space_char(cs[space_end(cs, i)]),
    decreases cs.len() - i,
{
    if i < cs.len() && is_space_char(cs[i]) {
        lemma_space_end(cs, i + 1);
    }
}

proof fn lemma_space_start(cs: Seq<char>, lo: int, j: int)
    requires
        0 <= lo <= j <= cs.len(),
    ensures
        lo <= space_start(cs, lo, j) <= j,
    decreases j - lo,
{
    if lo < j && is_space_char(cs[j - 1]) {
        lemma_space_start(cs, lo, j - 1);
    }
}

proof fn lemma_first_eq(cs: Seq<char>, i: int)
    requires
        0 <= i <= cs.len(),
    ensures
        i <= first_eq(cs, i) <= cs.len(),
        first_eq(cs, i) < cs.len() ==> cs[first_eq(cs, i)] == '=',
    decreases cs.len() - i,
{
    if i < cs.len() && cs[i] != '=' {
        lemma_first_eq(cs, i + 1);
    }
}

/// A white-space character, computed.
fn space_char(c: char) -> (r: bool)
    ensures
        r == is_space_char(c),
{
    c == ' ' || ('\t' <= c && c <= '\r') || c == '\u{85}' || c == '\u{a0}' || c == '\u{1680}' || ('\u{2000}' <= c
        && c <= '\u{200a}') || c == '\u{2028}' || c == '\u{2029}' || c == '\u{202f}' || c == '\u{205f}' || c
        == '\u{3000}'
}

/// Split `"x = rest"` into `(b'x', "rest")`; `None` without an
/// assignment prefix. Only exact single-letter targets count.
pub fn split_assignment(line: &str) -> (r: Option<(u8, &str)>)
    ensures
        match assignment_of(line@) {
            Some((v, rest)) => r matches Some((v2, s)) && v2 == v && s@ == rest,
            None => r is None,
        },
{
    let n = line.unicode_len();
    let mut i: usize = 0;
    while i < n && (line.get_char(i) == ' ' || line.get_char(i) == '\t')
        invariant
            i <= n == line@.len(),
            skip_blank(line@, 0) == skip_blank(line@, i as int),
        decreases n - i,
    {
        i = i + 1;
    }
    if i >= n {
        return None;
    }
    let c = line.get_char(i);
    if !('a' <= c && c <= 'z') {
        return None;
    }
    let mut j: usize = i + 1;
    while j < n && (line.get_char(j) == ' ' || line.get_char(j) == '\t')
        invariant
            i < j <= n == line@.len(),
            skip_blank(line@, i + 1) == skip_blank(line@, j as int),
        decreases n - j,
    {
        j = j + 1;
    }
    if j < n && line.get_char(j) == '=' {
        let v: u8 = (c as u32) as u8;
        Some((v, line.substring_char(j + 1, n)))
    } else {
        None
    }
}

/// The body slot `i` holds: its first `lens[i]` bytes.
spec fn slot<const V: usize>(lens: Seq<usize>, bodies: Seq<[u8; V]>, i: int) -> Seq<u8> {
    bodies[i]@.subrange(0, lens[i] as int)
}

/// The definitions a table of slots holds: slot `v - 'a'` for letter `v`,
/// empty slots undefined.
spec fn table_defs<const V: usize>(lens: Seq<usize>, bodies: Seq<[u8; V]>) -> Map<u8, Seq<u8>> {
    Map::new(
        |v: u8| is_lower(v) && 0 < lens[v - 97] <= bodies[v - 97]@.len(),
        |v: u8| slot(lens, bodies, v - 97),
    )
}

/// One slot per letter, each within its storage, every stored body names
/// only letters in its `VAR` instructions and is a balanced postfix
/// program, and no definition leads back into itself.
spec fn table_ok<const V: usize>(lens: Seq<usize>, bodies: Seq<[u8; V]>) -> bool {
    &&& lens.len() == 26
    &&& bodies.len() == 26
    &&& forall|i: int| 0 <= i < 26 ==> #[trigger] lens[i] <= V
    &&& forall|i: int| 0 <= i < 26 ==> vars_ok(#[trigger] slot(lens, bodies, i), 0)
    &&& acyclic(table_defs(lens, bodies))
    &&& forall|v: u8| #[trigger] table_defs(lens, bodies).contains_key(v) ==> balanced(table_defs(lens, bodies)[v])
}

impl<const VAR_BYTES: usize> View for Session<VAR_BYTES> {
    type V = Map<u8, Seq<u8>>;

    closed spec fn view(&self) -> Map<u8, Seq<u8>> {
        table_defs(self.lens@, self.bodies@)
    }
}

impl<const VAR_BYTES: usize> Session<VAR_BYTES> {
    /// Every session holds one slot per letter, every stored body names
    /// only letters in its `VAR` instructions and is a balanced postfix
    /// program, and no definition leads back into itself.
    #[verifier::type_invariant]
    pub closed spec fn wf(&self) -> bool {
        table_ok(self.lens@, self.bodies@)
    }

    /// A well-formed session's definitions are balanced postfix programs.
    pub proof fn lemma_wf_balanced(&self)
        requires
            self.wf(),
        ensures
            forall|v: u8| #[trigger] self@.contains_key(v) ==> balanced(self@[v]),
    {
    }

    /// A well-formed session's definitions never lead back into
    /// themselves.
    pub proof fn lemma_wf_acyclic(&self)
        requires
            self.wf(),
        ensures
            acyclic(self@),
    {
    }

    /// The configuration compilations run under.
    pub closed spec fn spec_config(&self) -> Config {
        self.cfg
    }

    /// Only letters are ever defined, and a definition is never empty.
    pub proof fn lemma_view(&self)
        ensures
            forall|v: u8| #[trigger] self@.contains_key(v) ==> is_lower(v) && self@[v].len() > 0,
    {
    }

    /// A session with no definitions.
    pub fn new(cfg: Config) -> (s: Self)
        ensures
            s@ == Map::<u8, Seq<u8>>::empty(),
            s.spec_config() == cfg,
    {
        let lens = [0usize; 26];
        let bodies = [[0u8; VAR_BYTES]; 26];
        proof {
            assert forall|i: int| 0 <= i < 26 implies vars_ok(#[trigger] slot(lens@, bodies@, i), 0) by {
                assert(slot(lens@, bodies@, i) =~= Seq::<u8>::empty());
            }
            assert(table_defs(lens@, bodies@) =~= Map::<u8, Seq<u8>>::empty());
        }
        Session { cfg, lens, bodies }
    }

    pub fn config(&self) -> (r: &Config)
        ensures
            *r == self.spec_config(),
    {
        &self.cfg
    }

    /// True when `var` has a definition (any letter `a..=z`).
    pub fn is_defined(&self, var: u8) -> (r: bool)
        ensures
            r == self@.contains_key(var),
    {
        proof {
            use_type_invariant(self);
        }
        97 <= var && var <= 122 && self.lens[(var - 97) as usize] > 0
    }

    /// Number of currently defined variables.
    pub fn defined_count(&self) -> (r: usize)
        ensures
            r == count_defined(self@, 26),
    {
        proof {
            use_type_invariant(self);
        }
        let mut c: usize = 0;
        let mut k: usize = 0;
        while k < 26
            invariant
                k <= 26,
                c == count_defined(self@, k as nat),
                c <= k,
                self.wf(),
            decreases 26 - k,
        {
            let v: u8 = (97 + k) as u8;
            proof {
                assert(v == (96 + (k + 1)) as u8);
            }
            if self.lens[k] > 0 {
                c = c + 1;
            }
            k = k + 1;
        }
        c
    }

    /// Compile `src` as the body of `var`, replacing any previous
    /// definition. Recursive definitions are rejected and leave the
    /// previous definition intact. Returns the stored body length.
    pub fn define(&mut self, var: u8, src: &str, stack: &mut [u8]) -> (r: Result<usize, Error>)
        ensures
            final(stack)@.len() == old(stack)@.len(),
            final(self).spec_config() == old(self).spec_config(),
            (r, final(self)@) == define_spec(
                old(self)@,
                old(self).spec_config(),
                var,
                src.spec_bytes(),
                VAR_BYTES as nat,
                old(stack)@.len() as nat,
            ),
    {
        proof {
            use_type_invariant(&*self);
        }
        if !(97 <= var && var <= 122) {
            return Err(Error::BadAssignment { pos: 0 });
        }
        let idx = (var - 97) as usize;
        let mut tmp = [0u8; VAR_BYTES];
        let ghost c = compile_spec(&NoResolve, self.cfg, src.spec_bytes(), VAR_BYTES as nat, stack@.len() as nat, false);
        let n = match compile_into_ex(&self.cfg, &NoResolve, src, &mut tmp, stack, false) {
            Ok(n) => n,
            Err(e) => {
                return Err(e);
            },
        };
        let whole: &[u8] = tmp.as_slice();
        let body: &[u8] = &whole[0..n];
        proof {
            assert(body@ =~= c.out);
            lemma_compile_ok(&NoResolve, self.cfg, src.spec_bytes(), VAR_BYTES as nat, stack@.len() as nat, false);
            assert(body@.subrange(0, body@.len() as int) =~= body@);
            lemma_stream_vars(body@, 0);
        }
        let bit = 1u32 << ((var - 97) as u32);
        proof {
            assert(bit == bit_of(var));
        }
        let probed = {
            let probe = Probe { s: &*self, var, body };
            let r = check_acyclic(body, &probe, bit);
            proof {
                assert(crate::fold::defs_of(&probe) =~= probe_defs(self@, var, body@));
            }
            r
        };
        match probed {
            Ok(()) => {},
            Err(e) => {
                return Err(e);
            },
        }
        let ghost old_view = self@;
        let ghost new_view = if c.out.len() > 0 { old_view.insert(var, c.out) } else { old_view.remove(var) };
        proof {
            crate::balance::lemma_compile_balanced(
                &NoResolve,
                self.cfg,
                src.spec_bytes(),
                VAR_BYTES as nat,
                stack@.len() as nat,
                false,
            );
            assert forall|v: u8| #[trigger] new_view.contains_key(v) implies balanced(new_view[v]) by {
                if v != var {
                    assert(old_view.contains_key(v));
                }
            }
            crate::laws::law_define_keeps_definitions_acyclic(
                old_view,
                self.cfg,
                var,
                src.spec_bytes(),
                VAR_BYTES as nat,
                stack@.len() as nat,
            );
        }
        let mut lens = self.lens;
        let mut bodies = self.bodies;
        lens[idx] = n;
        bodies[idx] = tmp;
        proof {
            assert(slot(lens@, bodies@, idx as int) =~= c.out);
            assert forall|i: int| 0 <= i < 26 implies vars_ok(#[trigger] slot(lens@, bodies@, i), 0) by {
                if i != idx {
                    assert(slot(lens@, bodies@, i) == slot(self.lens@, self.bodies@, i));
                }
            }
            assert forall|i: int| 0 <= i < 26 implies #[trigger] lens@[i] <= VAR_BYTES by {
                if i != idx {
                    assert(lens@[i] == self.lens@[i]);
                }
            }
            assert(table_defs(lens@, bodies@) =~= new_view) by {
                assert forall|v: u8| #[trigger] table_defs(lens@, bodies@).contains_key(v) == new_view.contains_key(v) by {
                    if is_lower(v) && v != var {
                        assert(lens@[v - 97] == self.lens@[v - 97]);
                    }
                }
                assert forall|v: u8| #[trigger] table_defs(lens@, bodies@).contains_key(v) implies table_defs(
                    lens@,
                    bodies@,
                )[v] == new_view[v] by {
                    if v != var {
                        assert(slot(lens@, bodies@, v - 97) == slot(self.lens@, self.bodies@, v - 97));
                    }
                }
            }
        }
        *self = Session { cfg: self.cfg, lens, bodies };
        Ok(n)
    }

    /// Remove a definition; later uses of `var` become plain symbols.
    /// True when there was one.
    pub fn undefine(&mut self, var: u8) -> (r: bool)
        ensures
            r == old(self)@.contains_key(var),
            final(self)@ == old(self)@.remove(var),
            final(self).spec_config() == old(self).spec_config(),
    {
        proof {
            use_type_invariant(&*self);
        }
        if !(97 <= var && var <= 122) {
            proof {
                assert(old(self)@.remove(var) =~= old(self)@);
            }
            return false;
        }
        let idx = (var - 97) as usize;
        let had = self.lens[idx] > 0;
        let ghost old_view = self@;
        proof {
            crate::acyclic::lemma_remove_acyclic(old_view, var);
            assert forall|v: u8| #[trigger] old_view.remove(var).contains_key(v) implies balanced(
                old_view.remove(var)[v],
            ) by {
                assert(old_view.contains_key(v));
            }
        }
        let mut lens = self.lens;
        lens[idx] = 0;
        let bodies = self.bodies;
        proof {
            assert forall|i: int| 0 <= i < 26 implies vars_ok(#[trigger] slot(lens@, bodies@, i), 0) by {
                if i != idx {
                    assert(slot(lens@, bodies@, i) == slot(self.lens@, self.bodies@, i));
                } else {
                    assert(slot(lens@, bodies@, i) =~= Seq::<u8>::empty());
                }
            }
            assert forall|i: int| 0 <= i < 26 implies #[trigger] lens@[i] <= VAR_BYTES by {
                if i != idx {
                    assert(lens@[i] == self.lens@[i]);
                }
            }
            assert(table_defs(lens@, bodies@) =~= old_view.remove(var)) by {
                assert forall|v: u8| #[trigger] table_defs(lens@, bodies@).contains_key(v) == old_view.remove(
                    var,
                ).contains_key(v) by {
                    if is_lower(v) && v != var {
                        assert(lens@[v - 97] == self.lens@[v - 97]);
                    }
                }
                assert forall|v: u8| #[trigger] table_defs(lens@, bodies@).contains_key(v) implies table_defs(
                    lens@,
                    bodies@,
                )[v] == old_view.remove(var)[v] by {
                    assert(slot(lens@, bodies@, v - 97) == slot(self.lens@, self.bodies@, v - 97));
                }
            }
        }
        *self = Session { cfg: self.cfg, lens, bodies };
        had
    }

    /// Compile an expression under the current definitions.
    pub fn compile(&self, src: &str, out: &mut [u8], stack: &mut [u8]) -> (r: Result<usize, Error>)
        ensures
            final(stack)@.len() == old(stack)@.len(),
            written_as(
                compile_spec(self, self.spec_config(), src.spec_bytes(), old(out)@.len() as nat, old(stack)@.len() as nat, true),
                old(out)@,
                final(out)@,
                r,
            ),
            r matches Err(e) ==> !(e is RecursiveDefinition),
            r matches Ok(n) ==> balanced(final(out)@.subrange(0, n as int)),
    {
        proof {
            use_type_invariant(self);
        }
        proof {
            crate::laws::law_session_compile_evaluates(
                self,
                src.spec_bytes(),
                out@.len() as nat,
                stack@.len() as nat,
                Seq::empty(),
                0,
            );
            crate::laws::law_session_compile_never_recursive(
                self,
                src.spec_bytes(),
                out@.len() as nat,
                stack@.len() as nat,
            );
        }
        compile_into(&self.cfg, self, src, out, stack)
    }

    /// One source line, calculator-style: `x = expr` defines `x`
    /// ([`Line::Defined`]); anything else compiles as an expression
    /// ([`Line::Expression`]). An `=` whose target is not a single
    /// letter is [`Error::BadAssignment`].
    pub fn compile_line(&mut self, line: &str, out: &mut [u8], stack: &mut [u8]) -> (r: Result<Line, Error>)
        ensures
            final(stack)@.len() == old(stack)@.len(),
            final(self).spec_config() == old(self).spec_config(),
            match assignment_of(line@) {
                Some((var, rhs)) => {
                    let d = define_spec(
                        old(self)@,
                        old(self).spec_config(),
                        var,
                        encode_utf8(rhs),
                        VAR_BYTES as nat,
                        old(stack)@.len() as nat,
                    );
                    &&& final(self)@ == d.1
                    &&& final(out)@ == old(out)@
                    &&& match d.0 {
                        Ok(len) => r == Ok::<Line, Error>(Line::Defined { var, len }),
                        Err(e) => r == Err::<Line, Error>(e),
                    }
                },
                None => {
                    &&& final(self)@ == old(self)@
                    &&& if misplaced_eq(line@) {
                        &&& r == Err::<Line, Error>(Error::BadAssignment { pos: eq_offset(line@) as usize })
                        &&& final(out)@ == old(out)@
                    } else {
                        let c = compile_spec(
                            old(self),
                            old(self).spec_config(),
                            line.spec_bytes(),
                            old(out)@.len() as nat,
                            old(stack)@.len() as nat,
                            true,
                        );
                        &&& written_as(c, old(out)@, final(out)@, line_len(r))
                        &&& (r matches Ok(l) ==> l is Expression)
                    }
                },
            },
    {
        proof {
            use_type_invariant(&*self);
        }
        match split_assignment(line) {
            Some((var, rhs)) => {
                let len = match self.define(var, rhs, stack) {
                    Ok(len) => len,
                    Err(e) => {
                        return Err(e);
                    },
                };
                Ok(Line::Defined { var, len })
            },
            None => {
                let n = line.unicode_len();
                let mut t0: usize = 0;
                while t0 < n && space_char(line.get_char(t0))
                    invariant
                        t0 <= n == line@.len(),
                        space_end(line@, 0) == space_end(line@, t0 as int),
                    decreases n - t0,
                {
                    t0 = t0 + 1;
                }
                let mut e: usize = t0;
                while e < n && line.get_char(e) != '='
                    invariant
                        t0 <= e <= n == line@.len(),
                        first_eq(line@, t0 as int) == first_eq(line@, e as int),
                    decreases n - e,
                {
                    e = e + 1;
                }
                if e < n {
                    let mut b: usize = e;
                    while b > t0 && space_char(line.get_char(b - 1))
                        invariant
                            t0 <= b <= e < n == line@.len(),
                            space_start(line@, t0 as int, e as int) == space_start(line@, t0 as int, b as int),
                        decreases b - t0,
                    {
                        b = b - 1;
                    }
                    let single = b == t0 + 1 && 'a' <= line.get_char(t0) && line.get_char(t0) <= 'z';
                    if !single {
                        let head = line.substring_char(0, e);
                        return Err(Error::BadAssignment { pos: head.len() });
                    }
                }
                let r = self.compile(line, out, stack);
                match r {
                    Ok(k) => Ok(Line::Expression(k)),
                    Err(err) => Err(err),
                }
            },
        }
    }
}

/// A session seen with `var` tentatively bound to a new body: the
/// resolver of the cycle check a definition runs before it is stored.
struct Probe<'a, const V: usize> {
    s: &'a Session<V>,
    var: u8,
    body: &'a [u8],
}

impl<'a, const V: usize> Resolve for Probe<'a, V> {
    closed spec fn spec_body(&self, v: u8) -> Option<Seq<u8>> {
        if v == self.var {
            Some(self.body@)
        } else {
            self.s.spec_body(v)
        }
    }

    fn body(&self, v: u8) -> (r: Option<&[u8]>) {
        if v == self.var {
            Some(self.body)
        } else {
            self.s.body(v)
        }
    }
}

impl<const VAR_BYTES: usize> Resolve for Session<VAR_BYTES> {
    open spec fn spec_body(&self, var: u8) -> Option<Seq<u8>> {
        if self@.contains_key(var) {
            Some(self@[var])
        } else {
            None
        }
    }

    fn body(&self, var: u8) -> (r: Option<&[u8]>) {
        proof {
            use_type_invariant(self);
        }
        let idx = (var - 97) as usize;
        let len = self.lens[idx];
        if len == 0 {
            None
        } else {
            let whole: &[u8] = self.bodies[idx].as_slice();
            Some(&whole[0..len])
        }
    }
}

} // verus!
