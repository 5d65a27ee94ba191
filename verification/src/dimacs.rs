//! DIMACS CNF and WCNF parsing.
//!
//! DIMACS files can be very large, so the parser reads the input in chunks
//! and re-uses its buffers rather than allocating per clause.  It is a
//! byte-level state machine; every transition is verified against the
//! specification-level machine [`model_step`], and a whole run of the
//! parser against its fold [`model_run`].
//!
//! The parser is not a DIMACS validator: it accepts exactly the valid
//! files, but its errors are not extremely detailed.

use vstd::prelude::*;
use crate::options::DisjunctivePropagatorOptions;

verus! {

/// The two header forms the parser accepts.
#[derive(Clone, Copy, Debug)]
pub enum DimacsFormat {
    Cnf,
    Wcnf,
}

/// The parser's position within a line.
#[derive(Clone, Copy, Debug)]
pub enum ParseState {
    StartLine,
    Header,
    Comment,
    Literal,
    NegativeLiteral,
    Clause,
}

/// ASCII whitespace: space, tab, line feed, form feed, carriage return.
pub open spec fn is_ws(b: u8) -> bool {
    b == 0x20 || b == 0x09 || b == 0x0a || b == 0x0c || b == 0x0d
}

fn byte_is_ws(b: u8) -> (r: bool)
    ensures
        r == is_ws(b),
{
    b == 0x20 || b == 0x09 || b == 0x0a || b == 0x0c || b == 0x0d
}

/// Value of a decimal digit string.
pub open spec fn dec_value(s: Seq<u8>) -> int
    decreases s.len(),
{
    if s.len() == 0 {
        0
    } else {
        dec_value(s.drop_last()) * 10 + (s.last() - 0x30)
    }
}

/// Every byte is a decimal digit.
pub open spec fn all_digits(s: Seq<u8>) -> bool {
    forall|i: int| 0 <= i < s.len() ==> 0x30 <= #[trigger] s[i] <= 0x39
}

/// The shape of a buffered DIMACS literal: an optional minus sign, then
/// digits, the first of them nonzero (the state machine never buffers a
/// leading zero).
pub open spec fn lit_shape(s: Seq<u8>) -> bool {
    if s.len() > 0 && s[0] == 0x2d {
        s.len() >= 2 && all_digits(s.skip(1)) && s[1] != 0x30
    } else {
        s.len() >= 1 && all_digits(s) && s[0] != 0x30
    }
}

/// The signed value of a buffered literal.
pub open spec fn lit_value(s: Seq<u8>) -> int {
    if s.len() > 0 && s[0] == 0x2d {
        -dec_value(s.skip(1))
    } else {
        dec_value(s)
    }
}

/// The value of a digit string is non-negative.
pub proof fn lemma_dec_value_nonneg(s: Seq<u8>)
    requires
        all_digits(s),
    ensures
        dec_value(s) >= 0,
    decreases s.len(),
{
    if s.len() > 0 {
        lemma_dec_value_nonneg(s.drop_last());
    }
}

/// Extending a digit string never decreases its value.
pub proof fn lemma_dec_value_prefix(s: Seq<u8>, j: int)
    requires
        all_digits(s),
        0 <= j <= s.len(),
    ensures
        dec_value(s.take(j)) <= dec_value(s),
    decreases s.len() - j,
{
    if j < s.len() {
        assert(all_digits(s.take(j + 1)));
        assert(s.take(j + 1).drop_last() == s.take(j));
        lemma_dec_value_nonneg(s.take(j));
        lemma_dec_value_prefix(s, j + 1);
    } else {
        assert(s.take(j) == s);
    }
}

/// Why a DIMACS source is rejected.
#[derive(Debug)]
pub enum DimacsParseError {
    /// No `p` line before the first clause or the end of the input.
    MissingHeader,
    /// A `p` line that is not `p cnf <vars> <clauses>` or
    /// `p wcnf <vars> <clauses> <top>`; carries the offending line.
    InvalidHeader(Vec<u8>),
    /// More than one `p` line.
    DuplicateHeader,
    /// A byte that no DIMACS production allows at this point.
    UnexpectedCharacter(char),
    /// A literal that does not fit the literal range, or a WCNF clause
    /// whose leading weight is missing or not positive; carries the
    /// offending text (empty for a missing weight).
    InvalidLiteral(Vec<u8>),
    /// The input ended inside a clause.
    UnterminatedClause,
    /// The header promised a different number of clauses.
    IncorrectClauseCount { expected: usize, parsed: usize },
}

/// The specification-level mirror of [`DimacsParseError`].
pub ghost enum ParseErr {
    MissingHeader,
    InvalidHeader(Seq<u8>),
    DuplicateHeader,
    UnexpectedCharacter(char),
    InvalidLiteral(Seq<u8>),
    UnterminatedClause,
    IncorrectClauseCount { expected: int, parsed: int },
}

impl View for DimacsParseError {
    type V = ParseErr;

    open spec fn view(&self) -> ParseErr {
        match self {
            DimacsParseError::MissingHeader => ParseErr::MissingHeader,
            DimacsParseError::InvalidHeader(s) => ParseErr::InvalidHeader(s@),
            DimacsParseError::DuplicateHeader => ParseErr::DuplicateHeader,
            DimacsParseError::UnexpectedCharacter(c) => ParseErr::UnexpectedCharacter(*c),
            DimacsParseError::InvalidLiteral(s) => ParseErr::InvalidLiteral(s@),
            DimacsParseError::UnterminatedClause => ParseErr::UnterminatedClause,
            DimacsParseError::IncorrectClauseCount { expected, parsed } =>
                ParseErr::IncorrectClauseCount {
                expected: *expected as int,
                parsed: *parsed as int,
            },
        }
    }
}

/// A parsed `p cnf` header.
#[derive(Clone, Copy, Debug)]
pub struct CNFHeader {
    pub num_variables: usize,
    pub num_clauses: usize,
}

/// A parsed `p wcnf` header; clauses of weight `top_weight` are hard.
#[derive(Clone, Copy, Debug)]
pub struct WCNFHeader {
    pub num_variables: usize,
    pub num_clauses: usize,
    pub top_weight: u64,
}

/// The header a parser has seen, if any.
#[derive(Clone, Copy, Debug)]
pub enum Header {
    Cnf(CNFHeader),
    Wcnf(WCNFHeader),
}

impl Header {
    pub open spec fn spec_num_variables(self) -> int {
        match self {
            Header::Cnf(h) => h.num_variables as int,
            Header::Wcnf(h) => h.num_variables as int,
        }
    }

    pub open spec fn spec_num_clauses(self) -> int {
        match self {
            Header::Cnf(h) => h.num_clauses as int,
            Header::Wcnf(h) => h.num_clauses as int,
        }
    }

    pub fn num_variables(&self) -> (n: usize)
        ensures
            n as int == self.spec_num_variables(),
    {
        match self {
            Header::Cnf(h) => h.num_variables,
            Header::Wcnf(h) => h.num_variables,
        }
    }

    pub fn num_clauses(&self) -> (n: usize)
        ensures
            n as int == self.spec_num_clauses(),
    {
        match self {
            Header::Cnf(h) => h.num_clauses,
            Header::Wcnf(h) => h.num_clauses,
        }
    }
}

/// The specification-level parser state.
#[verifier::ext_equal]
pub ghost struct ParserModel {
    pub format: DimacsFormat,
    pub header: Option<Header>,
    pub buffer: Seq<u8>,
    pub clause: Seq<i32>,
    pub state: ParseState,
    pub parsed_clauses: int,
    pub hard: Seq<Seq<i32>>,
    pub soft: Seq<(u32, Seq<i32>)>,
}

/// Strip ASCII whitespace from the front.
pub open spec fn trim_front(s: Seq<u8>) -> Seq<u8>
    decreases s.len(),
{
    if s.len() > 0 && is_ws(s[0]) {
        trim_front(s.skip(1))
    } else {
        s
    }
}

/// Strip ASCII whitespace from the back.
pub open spec fn trim_back(s: Seq<u8>) -> Seq<u8>
    decreases s.len(),
{
    if s.len() > 0 && is_ws(s.last()) {
        trim_back(s.drop_last())
    } else {
        s
    }
}

/// Strip ASCII whitespace from both ends.
pub open spec fn spec_trim(s: Seq<u8>) -> Seq<u8> {
    trim_back(trim_front(s))
}

/// Split on single spaces; consecutive spaces yield empty components.
pub open spec fn split_sp(s: Seq<u8>) -> Seq<Seq<u8>>
    decreases s.len(),
{
    if s.len() == 0 {
        seq![Seq::<u8>::empty()]
    } else if s[0] == 0x20 {
        seq![Seq::<u8>::empty()].add(split_sp(s.skip(1)))
    } else {
        let rest = split_sp(s.skip(1));
        rest.update(0, seq![s[0]].add(rest[0]))
    }
}

/// A split has at least one component.
pub proof fn lemma_split_sp_len(s: Seq<u8>)
    ensures
        split_sp(s).len() >= 1,
    decreases s.len(),
{
    if s.len() > 0 {
        lemma_split_sp_len(s.skip(1));
    }
}

/// The shape `str::parse` accepts for an unsigned number: an optional
/// leading plus, then at least one digit.
pub open spec fn num_shape(s: Seq<u8>) -> bool {
    if s.len() > 0 && s[0] == 0x2b {
        s.len() >= 2 && all_digits(s.skip(1))
    } else {
        s.len() >= 1 && all_digits(s)
    }
}

/// The digits of a number component, with any leading plus removed.
pub open spec fn num_digits(s: Seq<u8>) -> Seq<u8> {
    if s.len() > 0 && s[0] == 0x2b {
        s.skip(1)
    } else {
        s
    }
}

/// `str::parse` semantics for an unsigned number bounded by `max`.
pub open spec fn parse_num(s: Seq<u8>, max: int) -> Option<int> {
    if num_shape(s) && dec_value(num_digits(s)) <= max {
        Some(dec_value(num_digits(s)))
    } else {
        None
    }
}

/// The bytes of `"p cnf "`.
pub open spec fn cnf_prefix() -> Seq<u8> {
    seq![0x70u8, 0x20u8, 0x63u8, 0x6eu8, 0x66u8, 0x20u8]
}

/// The bytes of `"p wcnf "`.
pub open spec fn wcnf_prefix() -> Seq<u8> {
    seq![0x70u8, 0x20u8, 0x77u8, 0x63u8, 0x6eu8, 0x66u8, 0x20u8]
}

/// `CNFHeader::from_str`: the prefix is checked on the raw text, the
/// components come from splitting the trimmed text (the first two are the
/// prefix words), and errors carry the raw text.
pub open spec fn spec_cnf_header(s: Seq<u8>) -> Result<CNFHeader, ParseErr> {
    if !(s.len() >= 6 && s.take(6) == cnf_prefix()) {
        Err(ParseErr::InvalidHeader(s))
    } else {
        let comps = split_sp(spec_trim(s));
        if comps.len() != 4 {
            Err(ParseErr::InvalidHeader(s))
        } else {
            match (parse_num(comps[2], usize::MAX as int), parse_num(comps[3], usize::MAX as int)) {
                (Some(nv), Some(nc)) => Ok(
                    CNFHeader { num_variables: nv as usize, num_clauses: nc as usize },
                ),
                _ => Err(ParseErr::InvalidHeader(s)),
            }
        }
    }
}

/// `WCNFHeader::from_str`: the mirror of [`spec_cnf_header`] with the
/// `p wcnf` prefix and a third, top-weight component.
pub open spec fn spec_wcnf_header(s: Seq<u8>) -> Result<WCNFHeader, ParseErr> {
    if !(s.len() >= 7 && s.take(7) == wcnf_prefix()) {
        Err(ParseErr::InvalidHeader(s))
    } else {
        let comps = split_sp(spec_trim(s));
        if comps.len() != 5 {
            Err(ParseErr::InvalidHeader(s))
        } else {
            match (parse_num(comps[2], usize::MAX as int), parse_num(comps[3], usize::MAX as int),
            parse_num(comps[4], u64::MAX as int)) {
                (Some(nv), Some(nc), Some(tw)) => Ok(
                    WCNFHeader {
                        num_variables: nv as usize,
                        num_clauses: nc as usize,
                        top_weight: tw as u64,
                    },
                ),
                _ => Err(ParseErr::InvalidHeader(s)),
            }
        }
    }
}

/// Starting a new literal: the byte opens the buffer.
pub open spec fn model_start_literal(m: ParserModel, b: u8, is_positive: bool) -> ParserModel {
    ParserModel {
        state: if is_positive {
            ParseState::Literal
        } else {
            ParseState::NegativeLiteral
        },
        buffer: seq![b],
        ..m
    }
}

/// Finishing a literal: the buffered text becomes an `i32`, or the clause
/// is rejected when it does not fit.
pub open spec fn model_finish_literal(m: ParserModel) -> Result<ParserModel, ParseErr> {
    let v = lit_value(m.buffer);
    if -0x8000_0000 <= v <= 0x7fff_ffff {
        Ok(
            ParserModel {
                clause: m.clause.push(v as i32),
                state: ParseState::Clause,
                ..m
            },
        )
    } else {
        Err(ParseErr::InvalidLiteral(m.buffer))
    }
}

/// Finishing a clause.  A CNF clause is hard.  A WCNF clause starts with
/// its weight: equal to the top weight it is hard, otherwise soft; a
/// missing or non-positive weight is rejected, since no WCNF production
/// allows one.
pub open spec fn model_finish_clause(m: ParserModel) -> Result<ParserModel, ParseErr> {
    match m.header {
        Option::None => Err(ParseErr::MissingHeader),
        Option::Some(h) => {
            let parsed2 = if m.parsed_clauses < usize::MAX as int {
                m.parsed_clauses + 1
            } else {
                m.parsed_clauses
            };
            match m.format {
                DimacsFormat::Cnf => Ok(
                    ParserModel {
                        hard: m.hard.push(m.clause),
                        clause: Seq::empty(),
                        parsed_clauses: parsed2,
                        ..m
                    },
                ),
                DimacsFormat::Wcnf => {
                    if m.clause.len() == 0 || m.clause[0] <= 0 {
                        Err(ParseErr::InvalidLiteral(Seq::empty()))
                    } else {
                        let w = m.clause[0] as u32;
                        let rest = m.clause.skip(1);
                        match h {
                            Header::Wcnf(wh) => {
                                if w as int == wh.top_weight as int {
                                    Ok(
                                        ParserModel {
                                            hard: m.hard.push(rest),
                                            clause: Seq::empty(),
                                            parsed_clauses: parsed2,
                                            ..m
                                        },
                                    )
                                } else {
                                    Ok(
                                        ParserModel {
                                            soft: m.soft.push((w, rest)),
                                            clause: Seq::empty(),
                                            parsed_clauses: parsed2,
                                            ..m
                                        },
                                    )
                                }
                            },
                            Header::Cnf(_) => Err(ParseErr::MissingHeader),
                        }
                    }
                },
            }
        },
    }
}

/// Reading the end of a `p` line: the buffered line becomes the header.
/// A malformed line is reported before a duplicate one, as `from_str`
/// runs first.
pub open spec fn model_init_formula(m: ParserModel) -> Result<ParserModel, ParseErr> {
    match m.format {
        DimacsFormat::Cnf => match spec_cnf_header(spec_trim(m.buffer)) {
            Ok(h) => {
                if m.header is Some {
                    Err(ParseErr::DuplicateHeader)
                } else {
                    Ok(ParserModel { header: Some(Header::Cnf(h)), ..m })
                }
            },
            Err(e) => Err(e),
        },
        DimacsFormat::Wcnf => match spec_wcnf_header(spec_trim(m.buffer)) {
            Ok(h) => {
                if m.header is Some {
                    Err(ParseErr::DuplicateHeader)
                } else {
                    Ok(ParserModel { header: Some(Header::Wcnf(h)), ..m })
                }
            },
            Err(e) => Err(e),
        },
    }
}

/// The state machine's transition on one byte of input.
pub open spec fn model_step(m: ParserModel, b: u8) -> Result<ParserModel, ParseErr> {
    match m.state {
        ParseState::StartLine => {
            if is_ws(b) {
                Ok(m)
            } else if b == 0x70 {
                Ok(ParserModel { state: ParseState::Header, buffer: seq![0x70u8], ..m })
            } else if b == 0x63 {
                Ok(ParserModel { state: ParseState::Comment, ..m })
            } else if 0x31 <= b <= 0x39 {
                Ok(model_start_literal(m, b, true))
            } else if b == 0x30 {
                model_finish_clause(m)
            } else if b == 0x2d {
                Ok(model_start_literal(m, 0x2d, false))
            } else {
                Err(ParseErr::UnexpectedCharacter(b as char))
            }
        },
        ParseState::Header => {
            if b == 0x0a {
                match model_init_formula(m) {
                    Ok(m2) => Ok(ParserModel { state: ParseState::StartLine, ..m2 }),
                    Err(e) => Err(e),
                }
            } else {
                Ok(ParserModel { buffer: m.buffer.push(b), ..m })
            }
        },
        ParseState::Comment => {
            if b == 0x0a {
                Ok(ParserModel { state: ParseState::StartLine, ..m })
            } else {
                Ok(m)
            }
        },
        ParseState::Literal => {
            if is_ws(b) {
                model_finish_literal(m)
            } else if 0x30 <= b <= 0x39 {
                Ok(ParserModel { buffer: m.buffer.push(b), ..m })
            } else {
                Err(ParseErr::UnexpectedCharacter(b as char))
            }
        },
        ParseState::NegativeLiteral => {
            if 0x31 <= b <= 0x39 {
                Ok(ParserModel { buffer: m.buffer.push(b), state: ParseState::Literal, ..m })
            } else {
                Err(ParseErr::UnexpectedCharacter(b as char))
            }
        },
        ParseState::Clause => {
            if b == 0x30 {
                model_finish_clause(m)
            } else if b == 0x0a {
                Ok(ParserModel { state: ParseState::StartLine, ..m })
            } else if is_ws(b) {
                Ok(m)
            } else if 0x31 <= b <= 0x39 {
                Ok(model_start_literal(m, b, true))
            } else if b == 0x2d {
                Ok(model_start_literal(m, 0x2d, false))
            } else {
                Err(ParseErr::UnexpectedCharacter(b as char))
            }
        },
    }
}

/// A whole run of the machine over a byte sequence.
pub open spec fn model_run(m: ParserModel, bytes: Seq<u8>) -> Result<ParserModel, ParseErr>
    decreases bytes.len(),
{
    if bytes.len() == 0 {
        Ok(m)
    } else {
        match model_step(m, bytes[0]) {
            Ok(m2) => model_run(m2, bytes.skip(1)),
            Err(e) => Err(e),
        }
    }
}

/// The parser's initial state for a format.
pub open spec fn init_model(format: DimacsFormat) -> ParserModel {
    ParserModel {
        format: format,
        header: None,
        buffer: Seq::empty(),
        clause: Seq::empty(),
        state: ParseState::StartLine,
        parsed_clauses: 0,
        hard: Seq::empty(),
        soft: Seq::empty(),
    }
}

/// The parsed formula: variable count from the header, hard clauses, and
/// weighted soft clauses.
#[derive(Debug)]
pub struct DimacsFormula {
    pub num_variables: usize,
    pub hard: Vec<Vec<i32>>,
    pub soft: Vec<(u32, Vec<i32>)>,
}

/// The specification-level view of a parsed formula.
#[verifier::ext_equal]
pub ghost struct FormulaModel {
    pub num_variables: int,
    pub hard: Seq<Seq<i32>>,
    pub soft: Seq<(u32, Seq<i32>)>,
}

impl View for DimacsFormula {
    type V = FormulaModel;

    open spec fn view(&self) -> FormulaModel {
        FormulaModel {
            num_variables: self.num_variables as int,
            hard: self.hard@.map_values(|v: Vec<i32>| v@),
            soft: self.soft@.map_values(|p: (u32, Vec<i32>)| (p.0, p.1@)),
        }
    }
}

/// Completing a parse: the header must have been seen, no clause may be
/// open, and the clause count must match the header's promise.
pub open spec fn model_complete(m: ParserModel) -> Result<FormulaModel, ParseErr> {
    match m.header {
        Option::None => Err(ParseErr::MissingHeader),
        Option::Some(h) => {
            if m.clause.len() > 0 {
                Err(ParseErr::UnterminatedClause)
            } else if h.spec_num_clauses() != m.parsed_clauses {
                Err(
                    ParseErr::IncorrectClauseCount {
                        expected: h.spec_num_clauses(),
                        parsed: m.parsed_clauses,
                    },
                )
            } else {
                Ok(
                    FormulaModel {
                        num_variables: h.spec_num_variables(),
                        hard: m.hard,
                        soft: m.soft,
                    },
                )
            }
        },
    }
}

/// A whole parse of a byte source in one format.
pub open spec fn spec_parse(format: DimacsFormat, bytes: Seq<u8>) -> Result<
    FormulaModel,
    ParseErr,
> {
    match model_run(init_model(format), bytes) {
        Ok(m) => model_complete(m),
        Err(e) => Err(e),
    }
}

/// A fresh copy of `s[from..to]`.
fn copy_range(s: &Vec<u8>, from: usize, to: usize) -> (r: Vec<u8>)
    requires
        from <= to <= s@.len(),
    ensures
        r@ == s@.subrange(from as int, to as int),
        (from == 0 && to == s@.len()) ==> r@ == s@,
{
    let mut r: Vec<u8> = Vec::new();
    let mut i: usize = from;
    while i < to
        invariant
            from <= i <= to <= s@.len(),
            r@ == s@.subrange(from as int, i as int),
        decreases to - i,
    {
        r.push(s[i]);
        proof {
            assert(r@ =~= s@.subrange(from as int, i + 1));
        }
        i = i + 1;
    }
    r
}

/// A fresh copy of `v[from..]`.
fn copy_i32_tail(v: &Vec<i32>, from: usize) -> (r: Vec<i32>)
    requires
        from <= v@.len(),
    ensures
        r@ == v@.skip(from as int),
{
    let mut r: Vec<i32> = Vec::new();
    let mut i: usize = from;
    while i < v.len()
        invariant
            from <= i <= v@.len(),
            r@ == v@.subrange(from as int, i as int),
        decreases v@.len() - i,
    {
        r.push(v[i]);
        proof {
            assert(r@ =~= v@.subrange(from as int, i + 1));
        }
        i = i + 1;
    }
    proof {
        assert(v@.subrange(from as int, v@.len() as int) == v@.skip(from as int));
    }
    r
}

/// The bounds of the whitespace-trimmed span of `s`.
fn trim_indices(s: &Vec<u8>) -> (r: (usize, usize))
    ensures
        r.0 <= r.1 <= s@.len(),
        s@.subrange(r.0 as int, r.1 as int) == spec_trim(s@),
{
    let n = s.len();
    proof {
        assert(s@.skip(0) =~= s@);
    }
    let mut lo: usize = 0;
    while lo < n && byte_is_ws(s[lo])
        invariant
            lo <= n,
            n == s@.len(),
            trim_front(s@) == trim_front(s@.skip(lo as int)),
        decreases n - lo,
    {
        proof {
            assert(s@.skip(lo as int)[0] == s@[lo as int]);
            assert(s@.skip(lo as int).skip(1) == s@.skip(lo + 1));
        }
        lo = lo + 1;
    }
    proof {
        if lo < n {
            assert(s@.skip(lo as int)[0] == s@[lo as int]);
        }
        assert(trim_front(s@) == s@.skip(lo as int));
        assert(s@.skip(lo as int) == s@.subrange(lo as int, n as int));
    }
    let mut hi: usize = n;
    while hi > lo && byte_is_ws(s[hi - 1])
        invariant
            lo <= hi <= n,
            n == s@.len(),
            trim_front(s@) == s@.skip(lo as int),
            trim_back(s@.skip(lo as int)) == trim_back(s@.subrange(lo as int, hi as int)),
        decreases hi,
    {
        proof {
            assert(s@.subrange(lo as int, hi as int).last() == s@[hi - 1]);
            assert(s@.subrange(lo as int, hi as int).drop_last() == s@.subrange(
                lo as int,
                hi - 1,
            ));
        }
        hi = hi - 1;
    }
    proof {
        if hi > lo {
            assert(s@.subrange(lo as int, hi as int).last() == s@[hi - 1]);
        }
        assert(trim_back(s@.subrange(lo as int, hi as int)) == s@.subrange(lo as int, hi as int));
    }
    (lo, hi)
}

/// Splits `s[from..to]` on single spaces, walking backwards so that each
/// step mirrors one unfolding of [`split_sp`].
fn split_components(s: &Vec<u8>, from: usize, to: usize) -> (r: Vec<Vec<u8>>)
    requires
        from <= to <= s@.len(),
    ensures
        r@.map_values(|v: Vec<u8>| v@) == split_sp(s@.subrange(from as int, to as int)),
        r@.len() >= 1,
{
    let mut acc: Vec<Vec<u8>> = Vec::new();
    acc.push(Vec::new());
    proof {
        assert(acc@.map_values(|v: Vec<u8>| v@) =~~= split_sp(s@.subrange(to as int, to as int)));
    }
    let mut pos: usize = to;
    while pos > from
        invariant
            from <= pos <= to <= s@.len(),
            acc@.len() >= 1,
            acc@.map_values(|v: Vec<u8>| v@) == split_sp(s@.subrange(pos as int, to as int)),
        decreases pos,
    {
        pos = pos - 1;
        let b = s[pos];
        let ghost pre = acc@.map_values(|v: Vec<u8>| v@);
        proof {
            assert(s@.subrange(pos as int, to as int)[0] == b);
            assert(s@.subrange(pos as int, to as int).skip(1) == s@.subrange(pos + 1, to as int));
            lemma_split_sp_len(s@.subrange(pos + 1, to as int));
        }
        if b == 0x20 {
            acc.insert(0, Vec::new());
            proof {
                assert(acc@.map_values(|v: Vec<u8>| v@) =~~= seq![Seq::<u8>::empty()].add(pre));
            }
        } else {
            let mut first = acc.remove(0);
            first.insert(0, b);
            acc.insert(0, first);
            proof {
                assert(acc@.map_values(|v: Vec<u8>| v@) =~~= pre.update(0, seq![b].add(pre[0])));
            }
        }
    }
    acc
}

/// `str::parse` for an unsigned number bounded by `max`.
fn parse_component_u64(s: &Vec<u8>, max: u64) -> (r: Option<u64>)
    ensures
        (match r {
            Option::Some(v) => v <= max && parse_num(s@, max as int) == Some(v as int),
            Option::None => parse_num(s@, max as int) is None,
        }),
{
    let n = s.len();
    let start: usize = if n > 0 && s[0] == 0x2b {
        1
    } else {
        0
    };
    if n == start {
        return None;
    }
    let ghost digits = num_digits(s@);
    proof {
        assert(digits =~= s@.skip(start as int));
    }
    let mut acc: u64 = 0;
    let mut i: usize = start;
    while i < n
        invariant
            start <= i <= n,
            start <= 1,
            n == s@.len(),
            n > start,
            (start == 1 ==> n > 0 && s@[0] == 0x2b),
            (start == 0 ==> !(n > 0 && s@[0] == 0x2b)),
            digits == num_digits(s@),
            digits == s@.skip(start as int),
            all_digits(digits.take(i - start)),
            acc as int == dec_value(digits.take(i - start)),
            acc <= max,
        decreases n - i,
    {
        let d = s[i];
        proof {
            assert(digits[i - start] == s@[i as int]);
        }
        if !(0x30 <= d && d <= 0x39) {
            proof {
                assert(!all_digits(digits));
                assert(!num_shape(s@));
            }
            return None;
        }
        proof {
            assert(digits.take(i + 1 - start).drop_last() == digits.take(i - start));
            assert(digits.take(i + 1 - start).last() == s@[i as int]);
            assert(all_digits(digits.take(i + 1 - start)));
        }
        let dv = (d - 0x30) as u64;
        if acc > max / 10 || (acc == max / 10 && dv > max % 10) {
            proof {
                assert(10 * (max as int / 10) + (max as int % 10) == max as int);
                assert(acc as int * 10 + dv as int > max as int);
                assert(dec_value(digits.take(i + 1 - start)) > max as int);
                if all_digits(digits) {
                    lemma_dec_value_prefix(digits, i + 1 - start);
                    assert(dec_value(digits) > max as int);
                }
            }
            return None;
        }
        proof {
            assert(10 * (max as int / 10) + (max as int % 10) == max as int);
            assert(acc as int * 10 + dv as int <= max as int);
        }
        acc = acc * 10 + dv;
        i = i + 1;
    }
    proof {
        assert(digits.take(n - start) == digits);
        assert(num_shape(s@));
    }
    Some(acc)
}

/// One numeric component of a header line, or `InvalidHeader` carrying
/// the whole line when it is missing, malformed or out of range.
pub fn next_header_component(
    components: &Vec<Vec<u8>>,
    idx: usize,
    header: &Vec<u8>,
    max: u64,
) -> (r: Result<u64, DimacsParseError>)
    ensures
        (match r {
            Result::Ok(v) => (idx as int) < components@.len() && parse_num(
                components@[idx as int]@,
                max as int,
            ) == Some(v as int),
            Result::Err(e) => ((idx as int) >= components@.len() || parse_num(
                components@[idx as int]@,
                max as int,
            ) is None) && e@ == ParseErr::InvalidHeader(header@),
        }),
{
    if idx >= components.len() {
        return Err(DimacsParseError::InvalidHeader(copy_range(header, 0, header.len())));
    }
    match parse_component_u64(&components[idx], max) {
        Some(v) => Ok(v),
        None => Err(DimacsParseError::InvalidHeader(copy_range(header, 0, header.len()))),
    }
}

impl CNFHeader {
    pub fn num_variables(&self) -> (n: usize)
        ensures
            n == self.num_variables,
    {
        self.num_variables
    }

    pub fn num_clauses(&self) -> (n: usize)
        ensures
            n == self.num_clauses,
    {
        self.num_clauses
    }

    /// Parses `p cnf <variables> <clauses>`.
    pub fn from_str(s: &Vec<u8>) -> (r: Result<CNFHeader, DimacsParseError>)
        ensures
            (match spec_cnf_header(s@) {
                Result::Ok(h) => r matches Ok(h2) && h2 == h,
                Result::Err(e) => r matches Err(e2) && e2@ == e,
            }),
    {
        let n = s.len();
        if n < 6 || s[0] != 0x70 || s[1] != 0x20 || s[2] != 0x63 || s[3] != 0x6e || s[4] != 0x66
            || s[5] != 0x20 {
            proof {
                if s@.len() >= 6 && s@.take(6) == cnf_prefix() {
                    assert(s@.take(6)[0] == s@[0]);
                    assert(s@.take(6)[1] == s@[1]);
                    assert(s@.take(6)[2] == s@[2]);
                    assert(s@.take(6)[3] == s@[3]);
                    assert(s@.take(6)[4] == s@[4]);
                    assert(s@.take(6)[5] == s@[5]);
                }
            }
            return Err(DimacsParseError::InvalidHeader(copy_range(s, 0, n)));
        }
        proof {
            assert(s@.take(6) =~= cnf_prefix());
        }
        let (lo, hi) = trim_indices(s);
        let comps = split_components(s, lo, hi);
        if comps.len() != 4 {
            return Err(DimacsParseError::InvalidHeader(copy_range(s, 0, n)));
        }
        let nv = match next_header_component(&comps, 2, s, usize::MAX as u64) {
            Ok(v) => v,
            Err(e) => {
                return Err(e);
            },
        };
        let nc = match next_header_component(&comps, 3, s, usize::MAX as u64) {
            Ok(v) => v,
            Err(e) => {
                return Err(e);
            },
        };
        Ok(CNFHeader { num_variables: nv as usize, num_clauses: nc as usize })
    }
}

impl WCNFHeader {
    pub fn num_variables(&self) -> (n: usize)
        ensures
            n == self.num_variables,
    {
        self.num_variables
    }

    pub fn num_clauses(&self) -> (n: usize)
        ensures
            n == self.num_clauses,
    {
        self.num_clauses
    }

    /// Parses `p wcnf <variables> <clauses> <top weight>`.
    pub fn from_str(s: &Vec<u8>) -> (r: Result<WCNFHeader, DimacsParseError>)
        ensures
            (match spec_wcnf_header(s@) {
                Result::Ok(h) => r matches Ok(h2) && h2 == h,
                Result::Err(e) => r matches Err(e2) && e2@ == e,
            }),
    {
        let n = s.len();
        if n < 7 || s[0] != 0x70 || s[1] != 0x20 || s[2] != 0x77 || s[3] != 0x63 || s[4] != 0x6e
            || s[5] != 0x66 || s[6] != 0x20 {
            proof {
                if s@.len() >= 7 && s@.take(7) == wcnf_prefix() {
                    assert(s@.take(7)[0] == s@[0]);
                    assert(s@.take(7)[1] == s@[1]);
                    assert(s@.take(7)[2] == s@[2]);
                    assert(s@.take(7)[3] == s@[3]);
                    assert(s@.take(7)[4] == s@[4]);
                    assert(s@.take(7)[5] == s@[5]);
                    assert(s@.take(7)[6] == s@[6]);
                }
            }
            return Err(DimacsParseError::InvalidHeader(copy_range(s, 0, n)));
        }
        proof {
            assert(s@.take(7) =~= wcnf_prefix());
        }
        let (lo, hi) = trim_indices(s);
        let comps = split_components(s, lo, hi);
        if comps.len() != 5 {
            return Err(DimacsParseError::InvalidHeader(copy_range(s, 0, n)));
        }
        let nv = match next_header_component(&comps, 2, s, usize::MAX as u64) {
            Ok(v) => v,
            Err(e) => {
                return Err(e);
            },
        };
        let nc = match next_header_component(&comps, 3, s, usize::MAX as u64) {
            Ok(v) => v,
            Err(e) => {
                return Err(e);
            },
        };
        let tw = match next_header_component(&comps, 4, s, u64::MAX) {
            Ok(v) => v,
            Err(e) => {
                return Err(e);
            },
        };
        Ok(WCNFHeader { num_variables: nv as usize, num_clauses: nc as usize, top_weight: tw })
    }
}

/// The core DIMACS parser: a byte-level state machine that accumulates
/// hard and soft clauses.  The CNF and WCNF entry points share it.
pub struct DimacsParser {
    pub format: DimacsFormat,
    pub header: Option<Header>,
    pub buffer: Vec<u8>,
    pub clause: Vec<i32>,
    pub state: ParseState,
    pub parsed_clauses: usize,
    pub hard: Vec<Vec<i32>>,
    pub soft: Vec<(u32, Vec<i32>)>,
}

impl View for DimacsParser {
    type V = ParserModel;

    open spec fn view(&self) -> ParserModel {
        ParserModel {
            format: self.format,
            header: self.header,
            buffer: self.buffer@,
            clause: self.clause@,
            state: self.state,
            parsed_clauses: self.parsed_clauses as int,
            hard: self.hard@.map_values(|v: Vec<i32>| v@),
            soft: self.soft@.map_values(|p: (u32, Vec<i32>)| (p.0, p.1@)),
        }
    }
}

impl DimacsParser {
    /// The buffer always holds what the state says it holds.
    pub open spec fn wf(self) -> bool {
        &&& (self.state is Literal ==> lit_shape(self.buffer@))
        &&& (self.state is NegativeLiteral ==> self.buffer@ == seq![0x2du8])
    }

    /// A fresh parser for one format.
    pub fn new(format: DimacsFormat) -> (p: DimacsParser)
        ensures
            p@ == init_model(format),
            p.wf(),
    {
        let p = DimacsParser {
            format,
            header: None,
            buffer: Vec::new(),
            clause: Vec::new(),
            state: ParseState::StartLine,
            parsed_clauses: 0,
            hard: Vec::new(),
            soft: Vec::new(),
        };
        proof {
            assert(p@ =~~= init_model(format));
        }
        p
    }

    /// Opens the literal buffer with the byte that starts the literal.
    pub fn start_literal(&mut self, b: u8, is_positive: bool)
        requires
            is_positive ==> 0x31 <= b <= 0x39,
            !is_positive ==> b == 0x2d,
        ensures
            final(self)@ == model_start_literal(old(self)@, b, is_positive),
            final(self).wf(),
    {
        self.state = if is_positive {
            ParseState::Literal
        } else {
            ParseState::NegativeLiteral
        };
        self.buffer.clear();
        self.buffer.push(b);
        proof {
            assert(self.buffer@ =~= seq![b]);
            assert(self@ =~~= model_start_literal(old(self)@, b, is_positive));
        }
    }

    /// The buffered literal as an `i32`, when it fits.
    fn parse_literal(buffer: &Vec<u8>) -> (r: Option<i32>)
        requires
            lit_shape(buffer@),
        ensures
            (match r {
                Option::Some(v) => v as int == lit_value(buffer@),
                Option::None => !(-0x8000_0000 <= lit_value(buffer@) <= 0x7fff_ffff),
            }),
    {
        let n = buffer.len();
        let neg = buffer[0] == 0x2d;
        let start: usize = if neg {
            1
        } else {
            0
        };
        let ghost digits = if neg {
            buffer@.skip(1)
        } else {
            buffer@
        };
        proof {
            assert(digits =~= buffer@.skip(start as int));
            lemma_dec_value_nonneg(digits);
        }
        let mut acc: u64 = 0;
        let mut i: usize = start;
        while i < n
            invariant
                start <= i <= n,
                start <= 1,
                n == buffer@.len(),
                n > start,
                (start == 1) == (buffer@.len() > 0 && buffer@[0] == 0x2d),
                digits == buffer@.skip(start as int),
                all_digits(digits),
                digits.len() == n - start,
                acc as int == dec_value(digits.take(i - start)),
                acc <= 0x8000_0000,
            decreases n - i,
        {
            let d = buffer[i];
            proof {
                assert(digits[i - start] == buffer@[i as int]);
                assert(digits.take(i + 1 - start).drop_last() == digits.take(i - start));
                assert(digits.take(i + 1 - start).last() == buffer@[i as int]);
            }
            acc = acc * 10 + ((d - 0x30) as u64);
            if acc > 0x8000_0000 {
                proof {
                    assert(acc as int == dec_value(digits.take(i + 1 - start)));
                    lemma_dec_value_prefix(digits, i + 1 - start);
                    assert(digits.take(digits.len() as int) == digits);
                    assert(dec_value(digits) > 0x8000_0000);
                    assert(buffer@.skip(0) =~= buffer@);
                }
                return None;
            }
            i = i + 1;
        }
        proof {
            assert(digits.take(n - start) == digits);
            assert(acc as int == dec_value(digits));
        }
        if neg {
            if acc == 0x8000_0000 {
                Some(i32::MIN)
            } else {
                Some(-(acc as i32))
            }
        } else {
            if acc == 0x8000_0000 {
                None
            } else {
                Some(acc as i32)
            }
        }
    }

    /// Closes the buffered literal into the open clause.
    pub fn finish_literal(&mut self) -> (r: Result<(), DimacsParseError>)
        requires
            old(self).wf(),
            old(self).state is Literal,
        ensures
            final(self).wf(),
            (match model_finish_literal(old(self)@) {
                Result::Ok(m2) => r is Ok && final(self)@ == m2,
                Result::Err(e) => r matches Err(e2) && e2@ == e && final(self)@ == old(self)@,
            }),
    {
        match Self::parse_literal(&self.buffer) {
            Some(v) => {
                self.clause.push(v);
                self.state = ParseState::Clause;
                proof {
                    assert(self@ =~~= (match model_finish_literal(old(self)@) {
                        Result::Ok(m2) => m2,
                        Result::Err(_) => self@,
                    }));
                }
                Ok(())
            },
            None => Err(
                DimacsParseError::InvalidLiteral(copy_range(&self.buffer, 0, self.buffer.len())),
            ),
        }
    }

    /// Closes the open clause: hard for CNF; for WCNF the leading weight
    /// decides between hard and soft.
    pub fn finish_clause(&mut self) -> (r: Result<(), DimacsParseError>)
        ensures
            final(self).wf() == old(self).wf(),
            final(self).state == old(self).state,
            (match model_finish_clause(old(self)@) {
                Result::Ok(m2) => r is Ok && final(self)@ == m2,
                Result::Err(e) => r matches Err(e2) && e2@ == e && final(self)@ == old(self)@,
            }),
    {
        let h = match self.header {
            None => {
                return Err(DimacsParseError::MissingHeader);
            },
            Some(h) => h,
        };
        let parsed2: usize = if self.parsed_clauses < usize::MAX {
            self.parsed_clauses + 1
        } else {
            self.parsed_clauses
        };
        match self.format {
            DimacsFormat::Cnf => {
                let clause = copy_i32_tail(&self.clause, 0);
                proof {
                    assert(clause@ =~= self.clause@);
                }
                self.hard.push(clause);
                self.clause.clear();
                self.parsed_clauses = parsed2;
                proof {
                    assert(self@ =~~= (match model_finish_clause(old(self)@) {
                        Result::Ok(m2) => m2,
                        Result::Err(_) => self@,
                    }));
                }
                Ok(())
            },
            DimacsFormat::Wcnf => {
                if self.clause.len() == 0 {
                    return Err(DimacsParseError::InvalidLiteral(Vec::new()));
                }
                let w0 = self.clause[0];
                if w0 <= 0 {
                    return Err(DimacsParseError::InvalidLiteral(Vec::new()));
                }
                let w = w0 as u32;
                let wh = match h {
                    Header::Wcnf(wh) => wh,
                    Header::Cnf(_) => {
                        return Err(DimacsParseError::MissingHeader);
                    },
                };
                let rest = copy_i32_tail(&self.clause, 1);
                if (w as u64) == wh.top_weight {
                    self.hard.push(rest);
                } else {
                    self.soft.push((w, rest));
                }
                self.clause.clear();
                self.parsed_clauses = parsed2;
                proof {
                    assert(self@ =~~= (match model_finish_clause(old(self)@) {
                        Result::Ok(m2) => m2,
                        Result::Err(_) => self@,
                    }));
                }
                Ok(())
            },
        }
    }

    /// Reads the buffered `p` line into the header; a malformed line is
    /// reported before a duplicate one.
    pub fn init_formula(&mut self) -> (r: Result<(), DimacsParseError>)
        ensures
            final(self).wf() == old(self).wf(),
            final(self).state == old(self).state,
            (match model_init_formula(old(self)@) {
                Result::Ok(m2) => r is Ok && final(self)@ == m2,
                Result::Err(e) => r matches Err(e2) && e2@ == e && final(self)@ == old(self)@,
            }),
    {
        let (lo, hi) = trim_indices(&self.buffer);
        let trimmed = copy_range(&self.buffer, lo, hi);
        match self.format {
            DimacsFormat::Cnf => {
                let h = match CNFHeader::from_str(&trimmed) {
                    Ok(h) => h,
                    Err(e) => {
                        return Err(e);
                    },
                };
                if self.header.is_some() {
                    return Err(DimacsParseError::DuplicateHeader);
                }
                self.header = Some(Header::Cnf(h));
                proof {
                    assert(self@ =~~= (match model_init_formula(old(self)@) {
                        Result::Ok(m2) => m2,
                        Result::Err(_) => self@,
                    }));
                }
                Ok(())
            },
            DimacsFormat::Wcnf => {
                let h = match WCNFHeader::from_str(&trimmed) {
                    Ok(h) => h,
                    Err(e) => {
                        return Err(e);
                    },
                };
                if self.header.is_some() {
                    return Err(DimacsParseError::DuplicateHeader);
                }
                self.header = Some(Header::Wcnf(h));
                proof {
                    assert(self@ =~~= (match model_init_formula(old(self)@) {
                        Result::Ok(m2) => m2,
                        Result::Err(_) => self@,
                    }));
                }
                Ok(())
            },
        }
    }

    /// Feeds one byte to the state machine.
    fn step_byte(&mut self, b: u8) -> (r: Result<(), DimacsParseError>)
        requires
            old(self).wf(),
        ensures
            final(self).wf(),
            (match model_step(old(self)@, b) {
                Result::Ok(m2) => r is Ok && final(self)@ == m2,
                Result::Err(e) => r matches Err(e2) && e2@ == e,
            }),
    {
        match self.state {
            ParseState::StartLine => {
                if byte_is_ws(b) {
                    Ok(())
                } else if b == 0x70 {
                    self.state = ParseState::Header;
                    self.buffer.clear();
                    self.buffer.push(0x70);
                    proof {
                        assert(self.buffer@ =~= seq![0x70u8]);
                        assert(self@ =~~= (ParserModel {
                            state: ParseState::Header,
                            buffer: seq![0x70u8],
                            ..old(self)@
                        }));
                    }
                    Ok(())
                } else if b == 0x63 {
                    self.state = ParseState::Comment;
                    Ok(())
                } else if 0x31 <= b && b <= 0x39 {
                    self.start_literal(b, true);
                    Ok(())
                } else if b == 0x30 {
                    self.finish_clause()
                } else if b == 0x2d {
                    self.start_literal(0x2d, false);
                    Ok(())
                } else {
                    Err(DimacsParseError::UnexpectedCharacter(b as char))
                }
            },
            ParseState::Header => {
                if b == 0x0a {
                    match self.init_formula() {
                        Ok(u) => {
                            self.state = ParseState::StartLine;
                            Ok(u)
                        },
                        Err(e) => Err(e),
                    }
                } else {
                    self.buffer.push(b);
                    proof {
                        assert(self@ =~~= (ParserModel {
                            buffer: old(self)@.buffer.push(b),
                            ..old(self)@
                        }));
                    }
                    Ok(())
                }
            },
            ParseState::Comment => {
                if b == 0x0a {
                    self.state = ParseState::StartLine;
                }
                Ok(())
            },
            ParseState::Literal => {
                if byte_is_ws(b) {
                    self.finish_literal()
                } else if 0x30 <= b && b <= 0x39 {
                    proof {
                        let s0 = self.buffer@;
                        if s0[0] == 0x2d {
                            assert(s0.push(b).skip(1) =~= s0.skip(1).push(b));
                            assert(all_digits(s0.skip(1).push(b)));
                        } else {
                            assert(all_digits(s0.push(b)));
                        }
                    }
                    self.buffer.push(b);
                    proof {
                        assert(self@ =~~= (ParserModel {
                            buffer: old(self)@.buffer.push(b),
                            ..old(self)@
                        }));
                    }
                    Ok(())
                } else {
                    Err(DimacsParseError::UnexpectedCharacter(b as char))
                }
            },
            ParseState::NegativeLiteral => {
                if 0x31 <= b && b <= 0x39 {
                    self.buffer.push(b);
                    self.state = ParseState::Literal;
                    proof {
                        assert(self.buffer@ =~= seq![0x2du8, b]);
                        assert(self.buffer@.skip(1) =~= seq![b]);
                        assert(self@ =~~= (ParserModel {
                            buffer: old(self)@.buffer.push(b),
                            state: ParseState::Literal,
                            ..old(self)@
                        }));
                    }
                    Ok(())
                } else {
                    Err(DimacsParseError::UnexpectedCharacter(b as char))
                }
            },
            ParseState::Clause => {
                if b == 0x30 {
                    self.finish_clause()
                } else if b == 0x0a {
                    self.state = ParseState::StartLine;
                    Ok(())
                } else if byte_is_ws(b) {
                    Ok(())
                } else if 0x31 <= b && b <= 0x39 {
                    self.start_literal(b, true);
                    Ok(())
                } else if b == 0x2d {
                    self.start_literal(0x2d, false);
                    Ok(())
                } else {
                    Err(DimacsParseError::UnexpectedCharacter(b as char))
                }
            },
        }
    }

    /// Parses the next chunk of bytes.  A chunk may begin and end in the
    /// middle of a clause or of a header line.
    pub fn parse_chunk(&mut self, chunk: &[u8]) -> (r: Result<(), DimacsParseError>)
        requires
            old(self).wf(),
        ensures
            final(self).wf(),
            (match model_run(old(self)@, chunk@) {
                Result::Ok(m) => r is Ok && final(self)@ == m,
                Result::Err(e) => r matches Err(e2) && e2@ == e,
            }),
    {
        let n = chunk.len();
        proof {
            assert(chunk@.skip(0) =~= chunk@);
        }
        let mut i: usize = 0;
        while i < n
            invariant
                i <= n,
                n == chunk@.len(),
                self.wf(),
                model_run(old(self)@, chunk@) == model_run(self@, chunk@.skip(i as int)),
            decreases n - i,
        {
            let b = chunk[i];
            proof {
                assert(chunk@.skip(i as int)[0] == b);
                assert(chunk@.skip(i as int).skip(1) =~= chunk@.skip(i + 1));
            }
            match self.step_byte(b) {
                Ok(u) => {},
                Err(e) => {
                    return Err(e);
                },
            }
            i = i + 1;
        }
        proof {
            assert(chunk@.skip(n as int) =~= Seq::<u8>::empty());
        }
        Ok(())
    }

    /// Finishes the parse: the header must have been seen, no clause may
    /// still be open, and the clause count must match the header.
    pub fn complete(self) -> (r: Result<DimacsFormula, DimacsParseError>)
        ensures
            (match model_complete(self@) {
                Result::Ok(fm) => r matches Ok(f) && f@ == fm,
                Result::Err(e) => r matches Err(e2) && e2@ == e,
            }),
    {
        let h = match self.header {
            None => {
                return Err(DimacsParseError::MissingHeader);
            },
            Some(h) => h,
        };
        if self.clause.len() > 0 {
            return Err(DimacsParseError::UnterminatedClause);
        }
        let expected = h.num_clauses();
        if expected != self.parsed_clauses {
            return Err(
                DimacsParseError::IncorrectClauseCount {
                    expected,
                    parsed: self.parsed_clauses,
                },
            );
        }
        let f = DimacsFormula {
            num_variables: h.num_variables(),
            hard: self.hard,
            soft: self.soft,
        };
        proof {
            assert(f@ =~~= (match model_complete(self@) {
                Result::Ok(fm) => fm,
                Result::Err(_) => f@,
            }));
        }
        Ok(f)
    }
}

/// Parses a complete CNF source.
pub fn parse_cnf(source: &[u8]) -> (r: Result<DimacsFormula, DimacsParseError>)
    ensures
        (match spec_parse(DimacsFormat::Cnf, source@) {
            Result::Ok(fm) => r matches Ok(f) && f@ == fm,
            Result::Err(e) => r matches Err(e2) && e2@ == e,
        }),
{
    let mut parser = DimacsParser::new(DimacsFormat::Cnf);
    match parser.parse_chunk(source) {
        Ok(u) => parser.complete(),
        Err(e) => Err(e),
    }
}

/// Parses a complete WCNF source.
pub fn parse_wcnf(source: &[u8]) -> (r: Result<DimacsFormula, DimacsParseError>)
    ensures
        (match spec_parse(DimacsFormat::Wcnf, source@) {
            Result::Ok(fm) => r matches Ok(f) && f@ == fm,
            Result::Err(e) => r matches Err(e2) && e2@ == e,
        }),
{
    let mut parser = DimacsParser::new(DimacsFormat::Wcnf);
    match parser.parse_chunk(source) {
        Ok(u) => parser.complete(),
        Err(e) => Err(e),
    }
}

/// A boolean literal of the enclosing solver: a dense variable index and
/// a sign.
#[derive(Clone, Copy, Debug)]
pub struct Literal {
    pub index: usize,
    pub positive: bool,
}

impl Literal {
    /// The same variable with the opposite sign.
    pub fn negate(&self) -> (r: Literal)
        ensures
            r.index == self.index,
            r.positive == !self.positive,
    {
        Literal { index: self.index, positive: !self.positive }
    }
}

/// The arguments to construct the solver behind a [`SolverDimacsSink`].
pub struct SolverArgs {
    pub solver_options: DisjunctivePropagatorOptions,
}

impl SolverArgs {
    pub fn new(solver_options: DisjunctivePropagatorOptions) -> (r: SolverArgs)
        ensures
            r.solver_options == solver_options,
    {
        SolverArgs { solver_options }
    }
}

/// The variable table through which parsed clauses become solver
/// literals; the solver itself is an external collaborator.
pub struct SolverDimacsSink {
    pub variables: Vec<Literal>,
}

impl SolverDimacsSink {
    /// Maps DIMACS codes to solver literals: code `n` stands for
    /// `variables[n - 1]`, negated when the code is negative.
    pub fn mapped_clause(&self, clause: &Vec<i32>) -> (r: Vec<Literal>)
        requires
            forall|i: int| 0 <= i < clause@.len() ==> {
                let c = #[trigger] clause@[i];
                c != 0 && (if c > 0 {
                    c as int
                } else {
                    -(c as int)
                }) <= self.variables@.len()
            },
        ensures
            r@.len() == clause@.len(),
            forall|i: int| 0 <= i < clause@.len() ==> #[trigger] r@[i] == ({
                let c = clause@[i];
                if c > 0 {
                    self.variables@[c - 1]
                } else {
                    (Literal {
                        index: self.variables@[-(c as int) - 1].index,
                        positive: !self.variables@[-(c as int) - 1].positive,
                    })
                }
            }),
    {
        let mut r: Vec<Literal> = Vec::new();
        let mut i: usize = 0;
        while i < clause.len()
            invariant
                i <= clause@.len(),
                r@.len() == i,
                forall|q: int| 0 <= q < clause@.len() ==> {
                    let c = #[trigger] clause@[q];
                    c != 0 && (if c > 0 {
                        c as int
                    } else {
                        -(c as int)
                    }) <= self.variables@.len()
                },
                forall|q: int| 0 <= q < i ==> #[trigger] r@[q] == ({
                    let c = clause@[q];
                    if c > 0 {
                        self.variables@[c - 1]
                    } else {
                        (Literal {
                            index: self.variables@[-(c as int) - 1].index,
                            positive: !self.variables@[-(c as int) - 1].positive,
                        })
                    }
                }),
            decreases clause@.len() - i,
        {
            let c = clause[i];
            if c > 0 {
                r.push(self.variables[(c as usize) - 1]);
            } else {
                let mag = (-(c as i64)) as usize;
                r.push(self.variables[mag - 1].negate());
            }
            i = i + 1;
        }
        r
    }
}

} // verus!
