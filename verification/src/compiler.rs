//! The Alaybey language: the syntax check over source lines, the lexer that cuts
//! the source into tokens, and the parser that turns tokens into 32-bit words.
use vstd::prelude::*;
use crate::text::{
    chars_of, find_char, first_index, is_ws, lemma_first_index, lemma_first_index_at,
    parse_decimal_i32, parse_i32,
    position_of, push_char, split_pieces, split_words, string_of, strip_whitespace, strip_ws,
    sub_vec, trim, trim_bounds, trim_end, trim_start, utf8_len, utf8_len_exceeds, words,
};

verus! {

/// Numbers must stay below this value.
pub const MAX_NUM: i32 = 536870911;

/// Numbers must not be below this value, so that a number word keeps its top three bits
/// all set (negative) or all clear (positive).
pub const MIN_NUM: i32 = -0x2000_0000;

/// The word of the `$` instruction, which announces a variable definition.
pub const VAR_SGN: i32 = 1073741833;

/// The word that ends every compiled program.
pub const HALT_NSTRUCTON: i32 = 0x40000000;

/// Base of the words that read a variable.
pub const VAR_USAGE_START_PONT: u32 = 0x60000000u32;

/// Base of the words that define a variable.
pub const VAR_DEF_START_PONT: u32 = 0xA0000000u32;

/// One token of source text.
pub struct Token {
    pub syntax_token: String,
}

/// Why a source text was rejected.
#[derive(Debug)]
pub enum SyntaxError {
    /// The first line is not `{` or the last is not `}`.
    BracketsMissing,
    /// A line does not end with `;`.
    SemicolonMissing,
    /// A line between the brackets is empty.
    EmptyLine,
    /// A `$` line has no `:`.
    MissingColon,
    /// A variable is defined a second time.
    VariableDefinedBefore(String),
    /// A statement has at most two bytes besides whitespace.
    PatternError,
    /// One of the first two operands is neither a number nor a defined variable.
    UndefinedVariable(String),
    /// A later operand is neither a number nor a defined variable.
    UndefinedOperand,
    /// An operator position holds something other than `+ - * / %`.
    UnknownOperator,
    /// A number is not below `MAX_NUM`, or is below `MIN_NUM`.
    NumberOutOfRange,
    /// The parser met a second definition of a variable.
    DuplicateVariable,
    /// A token is neither a number, a variable nor an instruction.
    InvalidInstruction,
    /// More variables than the definition counter can number.
    TooManyVariables,
}

/// `SyntaxError` with its names as sequences of characters.
pub enum SyntaxFault {
    BracketsMissing,
    SemicolonMissing,
    EmptyLine,
    MissingColon,
    VariableDefinedBefore(Seq<char>),
    PatternError,
    UndefinedVariable(Seq<char>),
    UndefinedOperand,
    UnknownOperator,
    NumberOutOfRange,
    DuplicateVariable,
    InvalidInstruction,
    TooManyVariables,
}

impl View for SyntaxError {
    type V = SyntaxFault;

    open spec fn view(&self) -> SyntaxFault {
        match self {
            SyntaxError::BracketsMissing => SyntaxFault::BracketsMissing,
            SyntaxError::SemicolonMissing => SyntaxFault::SemicolonMissing,
            SyntaxError::EmptyLine => SyntaxFault::EmptyLine,
            SyntaxError::MissingColon => SyntaxFault::MissingColon,
            SyntaxError::VariableDefinedBefore(n) => SyntaxFault::VariableDefinedBefore(n@),
            SyntaxError::PatternError => SyntaxFault::PatternError,
            SyntaxError::UndefinedVariable(n) => SyntaxFault::UndefinedVariable(n@),
            SyntaxError::UndefinedOperand => SyntaxFault::UndefinedOperand,
            SyntaxError::UnknownOperator => SyntaxFault::UnknownOperator,
            SyntaxError::NumberOutOfRange => SyntaxFault::NumberOutOfRange,
            SyntaxError::DuplicateVariable => SyntaxFault::DuplicateVariable,
            SyntaxError::InvalidInstruction => SyntaxFault::InvalidInstruction,
            SyntaxError::TooManyVariables => SyntaxFault::TooManyVariables,
        }
    }
}

/// The text that describes each fault.
pub open spec fn syntax_fault_text(f: SyntaxFault) -> Seq<char> {
    match f {
        SyntaxFault::BracketsMissing => "syntax error.. Brackets missing!"@,
        SyntaxFault::SemicolonMissing => "syntax error.. Semicolon missing!"@,
        SyntaxFault::EmptyLine => "called `Option::unwrap()` on a `None` value"@,
        SyntaxFault::MissingColon => "variable must initialize with ':' "@,
        SyntaxFault::VariableDefinedBefore(n) => "this variable defined before: "@ + n,
        SyntaxFault::PatternError => "invalid syntax.. Pattern error!"@,
        SyntaxFault::UndefinedVariable(n) => "variable not defined before: "@ + n,
        SyntaxFault::UndefinedOperand => "variable not defined before!"@,
        SyntaxFault::UnknownOperator => "invalid syntax.. Unknown/No operator type!"@,
        SyntaxFault::NumberOutOfRange => "Out of range nuber! Maximum number should be less than 536870911"@,
        SyntaxFault::DuplicateVariable => "variable error.. dublicate variable definition!"@,
        SyntaxFault::InvalidInstruction => "syntax error.. invalid instruction type!"@,
        SyntaxFault::TooManyVariables => "attempt to add with overflow"@,
    }
}

impl SyntaxError {
    /// The text that describes the error.
    pub fn message(&self) -> (s: String)
        ensures
            s@ == syntax_fault_text(self@),
    {
        match self {
            SyntaxError::BracketsMissing => String::from_str("syntax error.. Brackets missing!"),
            SyntaxError::SemicolonMissing => String::from_str("syntax error.. Semicolon missing!"),
            SyntaxError::EmptyLine => String::from_str("called `Option::unwrap()` on a `None` value"),
            SyntaxError::MissingColon => String::from_str("variable must initialize with ':' "),
            SyntaxError::VariableDefinedBefore(n) => {
                let mut s = String::from_str("this variable defined before: ");
                s.append(n.as_str());
                s
            },
            SyntaxError::PatternError => String::from_str("invalid syntax.. Pattern error!"),
            SyntaxError::UndefinedVariable(n) => {
                let mut s = String::from_str("variable not defined before: ");
                s.append(n.as_str());
                s
            },
            SyntaxError::UndefinedOperand => String::from_str("variable not defined before!"),
            SyntaxError::UnknownOperator => String::from_str(
                "invalid syntax.. Unknown/No operator type!",
            ),
            SyntaxError::NumberOutOfRange => String::from_str(
                "Out of range nuber! Maximum number should be less than 536870911",
            ),
            SyntaxError::DuplicateVariable => String::from_str(
                "variable error.. dublicate variable definition!",
            ),
            SyntaxError::InvalidInstruction => String::from_str(
                "syntax error.. invalid instruction type!",
            ),
            SyntaxError::TooManyVariables => String::from_str("attempt to add with overflow"),
        }
    }
}

/// The characters of each vector.
pub open spec fn views(v: Seq<Vec<char>>) -> Seq<Seq<char>> {
    v.map_values(|e: Vec<char>| e@)
}

/// The characters of each line.
pub open spec fn line_views(v: Seq<&str>) -> Seq<Seq<char>> {
    v.map_values(|e: &str| e@)
}

/// The text of each token.
pub open spec fn token_texts(v: Seq<Token>) -> Seq<Seq<char>> {
    v.map_values(|t: Token| t.syntax_token@)
}

/// Whether `r` failed with exactly `f`.
pub open spec fn fails_with<T>(r: Result<T, SyntaxError>, f: SyntaxFault) -> bool {
    match r {
        Ok(_) => false,
        Err(e) => e@ == f,
    }
}

// ---------------------------------------------------------------------------
// The syntax check
// ---------------------------------------------------------------------------

/// One of the five arithmetic operators.
pub open spec fn is_operator(t: Seq<char>) -> bool {
    t == seq!['+'] || t == seq!['-'] || t == seq!['*'] || t == seq!['/'] || t == seq!['%']
}

/// A number or a variable defined so far.
pub open spec fn is_operand(t: Seq<char>, vars: Seq<Seq<char>>) -> bool {
    parse_i32(t).is_some() || vars.contains(t)
}

/// What is wrong, if anything, with the `i`-th token `t` of a statement: the first two
/// tokens are operands, then operators and operands alternate.
pub open spec fn expr_fault(t: Seq<char>, i: int, vars: Seq<Seq<char>>) -> Option<SyntaxFault> {
    if i < 2 {
        if is_operand(t, vars) {
            None
        } else {
            Some(SyntaxFault::UndefinedVariable(t))
        }
    } else if i % 2 == 0 {
        if is_operator(t) {
            None
        } else {
            Some(SyntaxFault::UnknownOperator)
        }
    } else {
        if is_operand(t, vars) {
            None
        } else {
            Some(SyntaxFault::UndefinedOperand)
        }
    }
}

/// The first fault among the tokens of a statement, in order.
pub open spec fn check_expr(tokens: Seq<Seq<char>>, vars: Seq<Seq<char>>) -> Result<
    (),
    SyntaxFault,
>
    decreases tokens.len(),
{
    if tokens.len() == 0 {
        Ok(())
    } else {
        match check_expr(tokens.drop_last(), vars) {
            Err(f) => Err(f),
            Ok(_) => match expr_fault(tokens.last(), tokens.len() - 1, vars) {
                Some(f) => Err(f),
                None => Ok(()),
            },
        }
    }
}

/// A statement (the part of a line before `;`, trimmed) checked against the
/// variables defined so far; gives the variables defined after it.
pub open spec fn check_statement(body: Seq<char>, vars: Seq<Seq<char>>) -> Result<
    Seq<Seq<char>>,
    SyntaxFault,
> {
    if body.len() == 0 {
        Ok(vars)
    } else if body[0] == '$' {
        let e = first_index(body, ':');
        if e == body.len() {
            Err(SyntaxFault::MissingColon)
        } else {
            let name = strip_ws(body.subrange(1, e));
            if vars.contains(name) {
                Err(SyntaxFault::VariableDefinedBefore(name))
            } else {
                let vars2 = vars.push(name);
                let rhs = body.skip(e + 1);
                if utf8_len(strip_ws(rhs)) <= 2 {
                    Err(SyntaxFault::PatternError)
                } else {
                    match check_expr(words(rhs), vars2) {
                        Ok(_) => Ok(vars2),
                        Err(f) => Err(f),
                    }
                }
            }
        }
    } else {
        if utf8_len(strip_ws(body)) <= 2 {
            Err(SyntaxFault::PatternError)
        } else {
            match check_expr(words(body), vars) {
                Ok(_) => Ok(vars),
                Err(f) => Err(f),
            }
        }
    }
}

/// One line between the brackets, checked against the variables defined so far.
pub open spec fn check_line(line: Seq<char>, vars: Seq<Seq<char>>) -> Result<
    Seq<Seq<char>>,
    SyntaxFault,
> {
    if line.len() == 0 {
        Err(SyntaxFault::EmptyLine)
    } else if line.last() != ';' {
        Err(SyntaxFault::SemicolonMissing)
    } else {
        check_statement(trim(line.take(first_index(line, ';'))), vars)
    }
}

/// The lines between the brackets, checked in order; gives the variables they define.
pub open spec fn check_body(lines: Seq<Seq<char>>) -> Result<Seq<Seq<char>>, SyntaxFault>
    decreases lines.len(),
{
    if lines.len() == 0 {
        Ok(Seq::<Seq<char>>::empty())
    } else {
        match check_body(lines.drop_last()) {
            Err(f) => Err(f),
            Ok(vars) => check_line(lines.last(), vars),
        }
    }
}

/// A whole program: `{`, then statements, then `}`.
pub open spec fn check_program(lines: Seq<Seq<char>>) -> Result<(), SyntaxFault> {
    if lines.len() >= 2 && lines[0] == seq!['{'] && lines.last() == seq!['}'] {
        match check_body(lines.subrange(1, lines.len() - 1)) {
            Ok(_) => Ok(()),
            Err(f) => Err(f),
        }
    } else {
        Err(SyntaxFault::BracketsMissing)
    }
}

/// Whether `lexer` is one of the operators `+ - * / %`.
fn check_op_code(lexer: &[char]) -> (r: bool)
    ensures
        r == is_operator(lexer@),
{
    if lexer.len() != 1 {
        assert(lexer@.len() != 1);
        return false;
    }
    let c = lexer[0];
    assert(lexer@ =~= seq![c]);
    c == '+' || c == '-' || c == '*' || c == '/' || c == '%'
}

/// Checks the tokens of one statement: two operands, then operators and operands in turn.
fn check_line_num_val(new_vec: &Vec<Vec<char>>, var_name_list: &Vec<Vec<char>>) -> (r: Result<
    (),
    SyntaxError,
>)
    ensures
        match check_expr(views(new_vec@), views(var_name_list@)) {
            Ok(_) => r is Ok,
            Err(f) => fails_with(r, f),
        },
{
    let ghost tokens = views(new_vec@);
    let ghost vars = views(var_name_list@);
    let mut i: usize = 0;
    while i < new_vec.len()
        invariant
            i <= new_vec@.len(),
            tokens == views(new_vec@),
            vars == views(var_name_list@),
            check_expr(tokens.take(i as int), vars) == Ok::<(), SyntaxFault>(()),
        decreases new_vec@.len() - i,
    {
        let tok = &new_vec[i];
        assert(tokens.take(i + 1).drop_last() =~= tokens.take(i as int));
        assert(tokens.take(i + 1).last() == tok@);
        if i < 2 || i % 2 == 1 {
            let num = parse_decimal_i32(tok.as_slice());
            let pos = position_of(var_name_list, tok.as_slice());
            proof {
                if let Some(j) = pos {
                    assert(vars[j as int] == tok@);
                }
            }
            let ok = num.is_some() || pos.is_some();
            if !ok {
                if i < 2 {
                    let name = string_of(tok.as_slice(), 0, tok.len());
                    assert(tok@.subrange(0, tok@.len() as int) =~= tok@);
                    proof {
                        lemma_check_expr_prefix(tokens, vars, i + 1);
                    }
                    return Err(SyntaxError::UndefinedVariable(name));
                } else {
                    proof {
                        lemma_check_expr_prefix(tokens, vars, i + 1);
                    }
                    return Err(SyntaxError::UndefinedOperand);
                }
            }
        } else {
            if !check_op_code(tok.as_slice()) {
                proof {
                    lemma_check_expr_prefix(tokens, vars, i + 1);
                }
                return Err(SyntaxError::UnknownOperator);
            }
        }
        i = i + 1;
    }
    assert(tokens.take(tokens.len() as int) =~= tokens);
    Ok(())
}

/// A fault in a prefix of a statement is the fault of the whole statement.
proof fn lemma_check_expr_prefix(tokens: Seq<Seq<char>>, vars: Seq<Seq<char>>, k: int)
    requires
        0 <= k <= tokens.len(),
        check_expr(tokens.take(k), vars) is Err,
    ensures
        check_expr(tokens, vars) == check_expr(tokens.take(k), vars),
    decreases tokens.len() - k,
{
    if k < tokens.len() {
        let t = tokens.drop_last();
        assert(t.take(k) =~= tokens.take(k));
        lemma_check_expr_prefix(t, vars, k);
    } else {
        assert(tokens.take(k) =~= tokens);
    }
}

/// Checks one line between the brackets against the variables defined so far, and adds
/// the variable that it defines.
fn check_source_line(line: &[char], var_name_list: &mut Vec<Vec<char>>) -> (r: Result<
    (),
    SyntaxError,
>)
    ensures
        match check_line(line@, views(old(var_name_list)@)) {
            Ok(vars) => r is Ok && views(final(var_name_list)@) == vars,
            Err(f) => fails_with(r, f),
        },
{
    let ghost vars0 = views(var_name_list@);
    let n = line.len();
    if n == 0 {
        return Err(SyntaxError::EmptyLine);
    }
    if line[n - 1] != ';' {
        return Err(SyntaxError::SemicolonMissing);
    }
    let semi = find_char(line, 0, n, ';');
    assert(line@.subrange(0, n as int) =~= line@);
    proof {
        lemma_first_index(line@, ';');
    }
    let (a, b) = trim_bounds(line, 0, semi);
    assert(line@.subrange(0, semi as int) =~= line@.take(first_index(line@, ';')));
    let ghost body = line@.subrange(a as int, b as int);
    assert(body == trim(line@.take(first_index(line@, ';'))));
    if a == b {
        return Ok(());
    }
    if line[a] == '$' {
        let e = find_char(line, a, b, ':');
        if e == b - a {
            return Err(SyntaxError::MissingColon);
        }
        proof {
            lemma_first_index(body, ':');
        }
        let name = strip_whitespace(line, a + 1, a + e);
        assert(line@.subrange(a + 1, a + e) =~= body.subrange(1, e as int));
        let pos = position_of(var_name_list, name.as_slice());
        proof {
            if let Some(j) = pos {
                assert(vars0[j as int] == name@);
            }
        }
        if pos.is_some() {
            let name_text = string_of(name.as_slice(), 0, name.len());
            assert(name@.subrange(0, name@.len() as int) =~= name@);
            return Err(SyntaxError::VariableDefinedBefore(name_text));
        }
        var_name_list.push(name);
        assert(views(var_name_list@) =~= vars0.push(name@));
        assert(line@.subrange(a + e + 1, b as int) =~= body.skip(e + 1));
        let stripped = strip_whitespace(line, a + e + 1, b);
        if !utf8_len_exceeds(stripped.as_slice(), 2) {
            return Err(SyntaxError::PatternError);
        }
        let tokens = split_words(line, a + e + 1, b);
        check_line_num_val(&tokens, var_name_list)
    } else {
        let stripped = strip_whitespace(line, a, b);
        if !utf8_len_exceeds(stripped.as_slice(), 2) {
            return Err(SyntaxError::PatternError);
        }
        let tokens = split_words(line, a, b);
        check_line_num_val(&tokens, var_name_list)
    }
}

/// Checks the lines of a program (each already trimmed): `{` first, `}` last, and each
/// line between them a statement that ends with `;`, in which every variable is defined
/// before use and defined once. Gives the first fault.
pub fn try_check_lexer(lexers: Vec<&str>) -> (r: Result<(), SyntaxError>)
    ensures
        match check_program(line_views(lexers@)) {
            Ok(_) => r is Ok,
            Err(f) => fails_with(r, f),
        },
{
    let ghost lines = line_views(lexers@);
    let n = lexers.len();
    if n < 2 {
        return Err(SyntaxError::BracketsMissing);
    }
    let first = chars_of(lexers[0]);
    let last = chars_of(lexers[n - 1]);
    assert(lines[0] == first@);
    assert(lines.last() == last@);
    let is_open = first.len() == 1 && first[0] == '{';
    let is_close = last.len() == 1 && last[0] == '}';
    if first.len() == 1 {
        assert(first@ =~= seq![first@[0]]);
    }
    if last.len() == 1 {
        assert(last@ =~= seq![last@[0]]);
    }
    if !(is_open && is_close) {
        return Err(SyntaxError::BracketsMissing);
    }
    assert(lines[0] == seq!['{'] && lines.last() == seq!['}']);
    let ghost body = lines.subrange(1, n - 1);
    let mut var_name_list: Vec<Vec<char>> = Vec::new();
    let mut i: usize = 1;
    assert(body.take(0) =~= Seq::<Seq<char>>::empty());
    assert(views(var_name_list@) =~= Seq::<Seq<char>>::empty());
    while i < n - 1
        invariant
            1 <= i <= n - 1,
            n == lexers@.len(),
            lines == line_views(lexers@),
            body == lines.subrange(1, n - 1),
            lines[0] == seq!['{'] && lines.last() == seq!['}'],
            check_body(body.take(i - 1)) == Ok::<Seq<Seq<char>>, SyntaxFault>(
                views(var_name_list@),
            ),
        decreases n - 1 - i,
    {
        let line = chars_of(lexers[i]);
        assert(body.take(i as int).drop_last() =~= body.take(i - 1));
        assert(body.take(i as int).last() == line@);
        let ghost old_list = var_name_list;
        let res = check_source_line(line.as_slice(), &mut var_name_list);
        if res.is_err() {
            proof {
                assert(check_body(body.take(i as int)) == check_line(
                    line@,
                    views(old_list@),
                ));
                lemma_check_body_prefix(body, i as int);
            }
            return res;
        }
        i = i + 1;
    }
    assert(body.take(n - 2) =~= body);
    Ok(())
}

/// A fault in the first lines of a program is the fault of the whole body.
proof fn lemma_check_body_prefix(lines: Seq<Seq<char>>, k: int)
    requires
        0 <= k <= lines.len(),
        check_body(lines.take(k)) is Err,
    ensures
        check_body(lines) == check_body(lines.take(k)),
    decreases lines.len() - k,
{
    if k < lines.len() {
        let t = lines.drop_last();
        assert(t.take(k) =~= lines.take(k));
        lemma_check_body_prefix(t, k);
    } else {
        assert(lines.take(k) =~= lines);
    }
}

// ---------------------------------------------------------------------------
// The lexer
// ---------------------------------------------------------------------------

/// The trimmed pieces that are not empty, in order.
pub open spec fn nonblank_trimmed(pieces: Seq<Seq<char>>) -> Seq<Seq<char>>
    decreases pieces.len(),
{
    if pieces.len() == 0 {
        Seq::<Seq<char>>::empty()
    } else {
        let r = nonblank_trimmed(pieces.drop_last());
        let t = trim(pieces.last());
        if t.len() > 0 {
            r.push(t)
        } else {
            r
        }
    }
}

/// The lines of a source text, trimmed, without the empty ones.
pub open spec fn source_lines(s: Seq<char>) -> Seq<Seq<char>> {
    nonblank_trimmed(split_pieces(s, '\n'))
}

/// The lexer's state after a prefix of the text: the tokens so far, the characters of the
/// token being read, and whether the closing `}` was met.
pub struct LexState {
    pub tokens: Seq<Seq<char>>,
    pub pending: Seq<char>,
    pub stopped: bool,
}

/// The lexer reading one more character.
pub open spec fn lex_step(st: LexState, c: char) -> LexState {
    if st.stopped || c == '\n' || c == '\t' || c == ':' {
        st
    } else if c == '{' {
        LexState { tokens: st.tokens.push(seq!['{']), ..st }
    } else if c == ' ' {
        LexState {
            tokens: if st.pending.len() > 0 {
                st.tokens.push(st.pending)
            } else {
                st.tokens
            },
            pending: Seq::<char>::empty(),
            stopped: false,
        }
    } else if c == ';' {
        let t = if st.pending.len() > 0 {
            st.tokens.push(trim(st.pending))
        } else {
            st.tokens
        };
        LexState { tokens: t.push(seq![';']), pending: Seq::<char>::empty(), stopped: false }
    } else if c == '}' {
        LexState { tokens: st.tokens.push(seq!['}']), pending: st.pending, stopped: true }
    } else {
        LexState { pending: st.pending.push(c), ..st }
    }
}

/// The lexer's state after reading `s`.
pub open spec fn lex_run(s: Seq<char>) -> LexState
    decreases s.len(),
{
    if s.len() == 0 {
        LexState {
            tokens: Seq::<Seq<char>>::empty(),
            pending: Seq::<char>::empty(),
            stopped: false,
        }
    } else {
        lex_step(lex_run(s.drop_last()), s.last())
    }
}

/// What `lexer` gives for a source text: its syntax fault, or its tokens.
pub open spec fn lex(s: Seq<char>) -> Result<Seq<Seq<char>>, SyntaxFault> {
    match check_program(source_lines(s)) {
        Err(f) => Err(f),
        Ok(_) => Ok(lex_run(s).tokens),
    }
}

/// Once the closing `}` is read, the rest of the text changes nothing.
proof fn lemma_lex_stopped(s: Seq<char>, k: int)
    requires
        0 <= k <= s.len(),
        lex_run(s.take(k)).stopped,
    ensures
        lex_run(s) == lex_run(s.take(k)),
    decreases s.len() - k,
{
    if k < s.len() {
        let t = s.drop_last();
        assert(t.take(k) =~= s.take(k));
        lemma_lex_stopped(t, k);
    } else {
        assert(s.take(k) =~= s);
    }
}

/// The lines of `text` (whose characters are `chars`), trimmed, without the empty ones.
fn source_line_slices<'a>(text: &'a str, chars: &Vec<char>) -> (r: Vec<&'a str>)
    requires
        chars@ == text@,
    ensures
        line_views(r@) == source_lines(text@),
{
    let ghost s = text@;
    let mut lines: Vec<&'a str> = Vec::new();
    let mut start: usize = 0;
    let mut i: usize = 0;
    proof {
        assert(s.take(0) =~= Seq::<char>::empty());
        assert(split_pieces(s.take(0), '\n') =~= seq![Seq::<char>::empty()]);
        assert(line_views(lines@) =~= Seq::<Seq<char>>::empty());
    }
    while i < chars.len()
        invariant
            start <= i <= chars@.len(),
            chars@ == s,
            s == text@,
            split_pieces(s.take(i as int), '\n').len() >= 1,
            split_pieces(s.take(i as int), '\n').last() == s.subrange(start as int, i as int),
            line_views(lines@) == nonblank_trimmed(
                split_pieces(s.take(i as int), '\n').drop_last(),
            ),
        decreases chars@.len() - i,
    {
        let ghost p = split_pieces(s.take(i as int), '\n');
        assert(s.take(i + 1).drop_last() =~= s.take(i as int));
        assert(s.take(i + 1).last() == chars@[i as int]);
        if chars[i] == '\n' {
            let (a, b) = trim_bounds(chars.as_slice(), start, i);
            assert(p.push(Seq::<char>::empty()).drop_last() =~= p);
            assert(p.drop_last().push(p.last()) =~= p);
            if a < b {
                let piece = text.substring_char(a, b);
                lines.push(piece);
                assert(line_views(lines@) =~= nonblank_trimmed(p.drop_last()).push(piece@));
            }
            start = i + 1;
            assert(s.subrange(start as int, i + 1) =~= Seq::<char>::empty());
        } else {
            let ghost q = p.update(p.len() - 1, p.last().push(chars@[i as int]));
            assert(q.drop_last() =~= p.drop_last());
            assert(q.last() =~= s.subrange(start as int, i + 1));
        }
        i = i + 1;
    }
    let ghost p = split_pieces(s.take(i as int), '\n');
    assert(s.take(i as int) =~= s);
    assert(p.drop_last().push(p.last()) =~= p);
    let (a, b) = trim_bounds(chars.as_slice(), start, i);
    if a < b {
        let piece = text.substring_char(a, b);
        lines.push(piece);
        assert(line_views(lines@) =~= nonblank_trimmed(p.drop_last()).push(piece@));
    }
    lines
}

/// A token whose text is `v[lo..hi]`.
fn make_token(v: &[char], lo: usize, hi: usize) -> (t: Token)
    requires
        lo <= hi <= v@.len(),
    ensures
        t.syntax_token@ == v@.subrange(lo as int, hi as int),
{
    Token { syntax_token: string_of(v, lo, hi) }
}

/// A token of one character.
fn char_token(c: char) -> (t: Token)
    ensures
        t.syntax_token@ == seq![c],
{
    let mut s = String::new();
    push_char(&mut s, c);
    assert(s@ =~= seq![c]);
    Token { syntax_token: s }
}

/// Checks the syntax of a source text (see `try_check_lexer`), then cuts it into tokens:
/// `{`, `;` and `}` are tokens of their own, spaces separate tokens, newlines, tabs and
/// `:` are skipped, and reading stops at the first `}`.
pub fn try_lexer(language_text: &str) -> (r: Result<Vec<Token>, SyntaxError>)
    ensures
        match lex(language_text@) {
            Ok(tokens) => r matches Ok(v) && token_texts(v@) == tokens,
            Err(f) => fails_with(r, f),
        },
{
    let ghost s = language_text@;
    let chars = chars_of(language_text);
    let lines = source_line_slices(language_text, &chars);
    match try_check_lexer(lines) {
        Err(e) => {
            return Err(e);
        },
        Ok(_) => {},
    }
    let mut token_list: Vec<Token> = Vec::new();
    let mut char_list: Vec<char> = Vec::new();
    let mut stopped = false;
    let mut i: usize = 0;
    assert(s.take(0) =~= Seq::<char>::empty());
    assert(token_texts(token_list@) =~= Seq::<Seq<char>>::empty());
    while i < chars.len() && !stopped
        invariant
            i <= chars@.len(),
            chars@ == s,
            lex_run(s.take(i as int)) == (LexState {
                tokens: token_texts(token_list@),
                pending: char_list@,
                stopped: stopped,
            }),
        decreases chars@.len() - i,
    {
        let c = chars[i];
        assert(s.take(i + 1).drop_last() =~= s.take(i as int));
        assert(s.take(i + 1).last() == c);
        let ghost before = token_texts(token_list@);
        if c == '\n' || c == '\t' || c == ':' {
        } else if c == '{' {
            token_list.push(char_token('{'));
            assert(token_texts(token_list@) =~= before.push(seq!['{']));
        } else if c == ' ' {
            if char_list.len() > 0 {
                token_list.push(make_token(char_list.as_slice(), 0, char_list.len()));
                assert(char_list@.subrange(0, char_list@.len() as int) =~= char_list@);
                assert(token_texts(token_list@) =~= before.push(char_list@));
            }
            char_list = Vec::new();
        } else if c == ';' {
            if char_list.len() > 0 {
                let (a, b) = trim_bounds(char_list.as_slice(), 0, char_list.len());
                assert(char_list@.subrange(0, char_list@.len() as int) =~= char_list@);
                token_list.push(make_token(char_list.as_slice(), a, b));
                assert(token_texts(token_list@) =~= before.push(trim(char_list@)));
            }
            let ghost mid = token_texts(token_list@);
            token_list.push(char_token(';'));
            assert(token_texts(token_list@) =~= mid.push(seq![';']));
            char_list = Vec::new();
        } else if c == '}' {
            token_list.push(char_token('}'));
            assert(token_texts(token_list@) =~= before.push(seq!['}']));
            stopped = true;
        } else {
            char_list.push(c);
        }
        i = i + 1;
    }
    proof {
        if stopped {
            lemma_lex_stopped(s, i as int);
        } else {
            assert(s.take(i as int) =~= s);
        }
    }
    Ok(token_list)
}

// ---------------------------------------------------------------------------
// The parser
// ---------------------------------------------------------------------------

/// The word of an instruction token, if it is one.
pub open spec fn instruction_code(t: Seq<char>) -> Option<u32> {
    if t == seq!['+'] {
        Some(0x40000001u32)
    } else if t == seq!['-'] {
        Some(0x40000002u32)
    } else if t == seq!['*'] {
        Some(0x40000003u32)
    } else if t == seq!['/'] {
        Some(0x40000004u32)
    } else if t == seq!['%'] {
        Some(0x40000005u32)
    } else if t == seq![';'] {
        Some(0x40000006u32)
    } else if t == seq!['{'] {
        Some(0x40000007u32)
    } else if t == seq!['}'] {
        Some(0x40000008u32)
    } else if t == seq!['$'] {
        Some(0x40000009u32)
    } else {
        None
    }
}

/// The word that defines the `n`-th variable (counting from 1): `0xA0000000 + n` as a
/// 32-bit two's-complement number.
pub open spec fn var_def_code(n: nat) -> i32 {
    (0xA000_0000 + n - 0x1_0000_0000) as i32
}

/// The word that reads the `n`-th variable (counting from 1).
pub open spec fn var_use_code(n: nat) -> i32 {
    (0x6000_0000 + n % 0x1000_0000) as i32
}

/// The parser reading one more token `t`, with the words `code` and the variables `vars`
/// so far.
pub open spec fn parse_step(code: Seq<i32>, vars: Seq<Seq<char>>, t: Seq<char>) -> Result<
    (Seq<i32>, Seq<Seq<char>>),
    SyntaxFault,
> {
    let tt = trim(t);
    match parse_i32(tt) {
        Some(v) => if MIN_NUM <= v && v < MAX_NUM {
            Ok((code.push(v), vars))
        } else {
            Err(SyntaxFault::NumberOutOfRange)
        },
        None => if code.len() > 0 && code.last() == VAR_SGN {
            if vars.contains(t) {
                Err(SyntaxFault::DuplicateVariable)
            } else if vars.len() >= 0x5FFF_FFFF {
                Err(SyntaxFault::TooManyVariables)
            } else {
                Ok((code.push(var_def_code(vars.len() + 1)), vars.push(t)))
            }
        } else if code.len() > 0 && vars.contains(t) {
            Ok((code.push(var_use_code((first_index(vars, t) + 1) as nat)), vars))
        } else {
            match instruction_code(tt) {
                Some(op) => Ok((code.push(op as i32), vars)),
                None => Err(SyntaxFault::InvalidInstruction),
            }
        },
    }
}

/// The parser after reading `tokens`: the words and the variables, or the first fault.
pub open spec fn parse_run(tokens: Seq<Seq<char>>) -> Result<
    (Seq<i32>, Seq<Seq<char>>),
    SyntaxFault,
>
    decreases tokens.len(),
{
    if tokens.len() == 0 {
        Ok((Seq::<i32>::empty(), Seq::<Seq<char>>::empty()))
    } else {
        match parse_run(tokens.drop_last()) {
            Err(f) => Err(f),
            Ok((code, vars)) => parse_step(code, vars, tokens.last()),
        }
    }
}

/// What `parser` gives for tokens: their words followed by `HALT_NSTRUCTON`, or the first fault.
pub open spec fn compile(tokens: Seq<Seq<char>>) -> Result<Seq<i32>, SyntaxFault> {
    match parse_run(tokens) {
        Ok((code, _)) => Ok(code.push(HALT_NSTRUCTON)),
        Err(f) => Err(f),
    }
}

/// A fault after some tokens is the fault of all of them.
proof fn lemma_parse_run_prefix(tokens: Seq<Seq<char>>, k: int)
    requires
        0 <= k <= tokens.len(),
        parse_run(tokens.take(k)) is Err,
    ensures
        parse_run(tokens) == parse_run(tokens.take(k)),
    decreases tokens.len() - k,
{
    if k < tokens.len() {
        let t = tokens.drop_last();
        assert(t.take(k) =~= tokens.take(k));
        lemma_parse_run_prefix(t, k);
    } else {
        assert(tokens.take(k) =~= tokens);
    }
}

/// The number written by `s`, which is known to be one.
fn token_to_number(s: &[char]) -> (r: i32)
    requires
        parse_i32(s@) is Some,
    ensures
        parse_i32(s@) == Some(r),
{
    match parse_decimal_i32(s) {
        Some(v) => v,
        None => 0,
    }
}

/// The word of an instruction token, if it is one.
pub fn token_to_instruction(s: &[char]) -> (r: Option<u32>)
    ensures
        r == instruction_code(s@),
{
    if s.len() != 1 {
        assert(s@.len() != 1);
        return None;
    }
    let c = s[0];
    assert(s@ =~= seq![c]);
    match c {
        '+' => Some(0x40000001u32),
        '-' => Some(0x40000002u32),
        '*' => Some(0x40000003u32),
        '/' => Some(0x40000004u32),
        '%' => Some(0x40000005u32),
        ';' => Some(0x40000006u32),
        '{' => Some(0x40000007u32),
        '}' => Some(0x40000008u32),
        '$' => Some(0x40000009u32),
        _ => None,
    }
}

/// The low 28 bits of a word, where a variable's number is kept.
fn get_variable_value(instruction: i32) -> (r: i32)
    ensures
        r == instruction & 0xfffffff,
{
    instruction & 0xfffffff
}

/// The variable-definition counter seen as a word.
proof fn lemma_def_word(n: u32)
    requires
        1 <= n <= 0x5FFF_FFFF,
    ensures
        ((0xA000_0000u32 + n) as u32) as i32 == var_def_code(n as nat),
        (((((0xA000_0000u32 + n) as u32) as i32) & 0xfffffffi32) as u32) < 0x1000_0000,
        ((((((0xA000_0000u32 + n) as u32) as i32) & 0xfffffffi32) as u32) + 0x6000_0000u32) as i32
            == var_use_code(n as nat),
{
    let x: u32 = (0xA000_0000u32 + n) as u32;
    assert(x == 0xA000_0000u32 + n);
    assert((x as i32) as int == x as int - 0x1_0000_0000) by (bit_vector)
        requires
            x >= 0x8000_0000u32,
    ;
    assert(((((x as i32) & 0xfffffffi32) as u32) as int) == (n as int) % 0x1000_0000 && (((
    x as i32) & 0xfffffffi32) as u32) < 0x1000_0000) by (bit_vector)
        requires
            x == 0xA000_0000u32 + n,
            n <= 0x5FFF_FFFFu32,
    ;
}

/// Turns tokens into words: a number from `MIN_NUM` to below `MAX_NUM` is its own word;
/// the token after `$` defines a new variable; a defined variable is read by its word;
/// `+ - * / % ; { } $` are instructions. `HALT_NSTRUCTON` ends the program. Gives the
/// first fault.
pub fn try_parser(token_list: Vec<Token>) -> (r: Result<Vec<i32>, SyntaxError>)
    ensures
        match compile(token_texts(token_list@)) {
            Ok(code) => r matches Ok(v) && v@ == code,
            Err(f) => fails_with(r, f),
        },
{
    let ghost tokens = token_texts(token_list@);
    let mut instruction_list: Vec<i32> = Vec::new();
    let mut var_names: Vec<Vec<char>> = Vec::new();
    let mut var_definition: u32 = VAR_DEF_START_PONT;
    let mut i: usize = 0;
    assert(tokens.take(0) =~= Seq::<Seq<char>>::empty());
    assert(views(var_names@) =~= Seq::<Seq<char>>::empty());
    while i < token_list.len()
        invariant
            i <= token_list@.len(),
            tokens == token_texts(token_list@),
            parse_run(tokens.take(i as int)) == Ok::<
                (Seq<i32>, Seq<Seq<char>>),
                SyntaxFault,
            >((instruction_list@, views(var_names@))),
            var_names@.len() <= 0x5FFF_FFFF,
            var_definition == VAR_DEF_START_PONT + var_names@.len(),
        decreases token_list@.len() - i,
    {
        let ghost code = instruction_list@;
        let ghost vars = views(var_names@);
        let token = chars_of(token_list[i].syntax_token.as_str());
        assert(tokens.take(i + 1).drop_last() =~= tokens.take(i as int));
        assert(tokens.take(i + 1).last() == token@);
        let (a, b) = trim_bounds(token.as_slice(), 0, token.len());
        assert(token@.subrange(0, token@.len() as int) =~= token@);
        let trimmed = sub_vec(token.as_slice(), a, b);
        if parse_decimal_i32(trimmed.as_slice()).is_some() {
            let program_data = token_to_number(trimmed.as_slice());
            if MIN_NUM <= program_data && program_data < MAX_NUM {
                instruction_list.push(program_data);
            } else {
                proof {
                    lemma_parse_run_prefix(tokens, i + 1);
                }
                return Err(SyntaxError::NumberOutOfRange);
            }
        } else {
            let n = instruction_list.len();
            let pos = position_of(&var_names, token.as_slice());
            proof {
                if let Some(j) = pos {
                    assert(vars[j as int] == token@);
                }
            }
            if n > 0 && instruction_list[n - 1] == VAR_SGN {
                if pos.is_some() {
                    proof {
                        lemma_parse_run_prefix(tokens, i + 1);
                    }
                    return Err(SyntaxError::DuplicateVariable);
                }
                if var_definition == 0xFFFF_FFFFu32 {
                    proof {
                        lemma_parse_run_prefix(tokens, i + 1);
                    }
                    return Err(SyntaxError::TooManyVariables);
                }
                var_definition = var_definition + 1;
                proof {
                    lemma_def_word((var_names@.len() + 1) as u32);
                }
                instruction_list.push(var_definition as i32);
                var_names.push(token);
                assert(views(var_names@) =~= vars.push(token@));
            } else if n > 0 && pos.is_some() {
                let idx = match pos {
                    Some(j) => j,
                    None => 0,
                };
                let var_raw_value: u32 = VAR_DEF_START_PONT + (idx as u32) + 1;
                proof {
                    lemma_def_word((idx + 1) as u32);
                }
                let var_value = get_variable_value(var_raw_value as i32) as u32;
                let var_pointer = VAR_USAGE_START_PONT + var_value;
                instruction_list.push(var_pointer as i32);
            } else {
                match token_to_instruction(trimmed.as_slice()) {
                    Some(op) => {
                        instruction_list.push(op as i32);
                    },
                    None => {
                        proof {
                            lemma_parse_run_prefix(tokens, i + 1);
                        }
                        return Err(SyntaxError::InvalidInstruction);
                    },
                }
            }
        }
        i = i + 1;
    }
    assert(tokens.take(i as int) =~= tokens);
    instruction_list.push(HALT_NSTRUCTON);
    Ok(instruction_list)
}

// ---------------------------------------------------------------------------
// The checked forms, for programs known to be correct
// ---------------------------------------------------------------------------

/// The syntax check of the lines of a correct program (`try_check_lexer` tells which
/// programs are correct, and why the others are not).
pub fn check_lexer(lexers: Vec<&str>)
    requires
        check_program(line_views(lexers@)) is Ok,
{
    let r = try_check_lexer(lexers);
    assert(r is Ok);
}

/// The tokens of a source text that passes the syntax check (see `try_lexer`).
pub fn lexer(language_text: &str) -> (r: Vec<Token>)
    requires
        check_program(source_lines(language_text@)) is Ok,
    ensures
        token_texts(r@) == lex_run(language_text@).tokens,
{
    try_lexer(language_text).unwrap()
}

/// The words of tokens that compile (see `try_parser`).
pub fn parser(token_list: Vec<Token>) -> (r: Vec<i32>)
    requires
        compile(token_texts(token_list@)) is Ok,
    ensures
        r@ == compile(token_texts(token_list@))->Ok_0,
{
    try_parser(token_list).unwrap()
}

// ---------------------------------------------------------------------------
// Laws
// ---------------------------------------------------------------------------

/// A character that separates or is skipped between tokens.
pub open spec fn is_separator(c: char) -> bool {
    c == ' ' || c == '\n' || c == '\t' || c == ':'
}

/// No token, and no token being read, holds a space, a newline, a tab or a `:`.
pub open spec fn separator_free(st: LexState) -> bool {
    &&& forall|i: int, j: int|
        0 <= i < st.tokens.len() && 0 <= j < st.tokens[i].len() ==> !is_separator(
            #[trigger] st.tokens[i][j],
        )
    &&& forall|j: int| 0 <= j < st.pending.len() ==> !is_separator(#[trigger] st.pending[j])
}

/// Trimming keeps a subrange, so it adds no character.
proof fn lemma_trim_within(s: Seq<char>)
    ensures
        forall|j: int|
            0 <= j < trim(s).len() ==> exists|k: int| 0 <= k < s.len() && s[k] == #[trigger] trim(
                s,
            )[j],
    decreases s.len(),
{
    lemma_trim_start_within(s);
    lemma_trim_end_within(trim_start(s));
    assert forall|j: int| 0 <= j < trim(s).len() implies exists|k: int|
        0 <= k < s.len() && s[k] == #[trigger] trim(s)[j] by {
        let t = trim_start(s);
        let k1 = choose|k1: int| 0 <= k1 < t.len() && t[k1] == trim(s)[j];
        let k2 = choose|k2: int| 0 <= k2 < s.len() && s[k2] == t[k1];
    }
}

proof fn lemma_trim_start_within(s: Seq<char>)
    ensures
        forall|j: int|
            0 <= j < trim_start(s).len() ==> exists|k: int|
                0 <= k < s.len() && s[k] == #[trigger] trim_start(s)[j],
    decreases s.len(),
{
    if s.len() > 0 && is_ws(s[0]) {
        let t = s.drop_first();
        lemma_trim_start_within(t);
        assert forall|j: int| 0 <= j < trim_start(s).len() implies exists|k: int|
            0 <= k < s.len() && s[k] == #[trigger] trim_start(s)[j] by {
            let k = choose|k: int| 0 <= k < t.len() && t[k] == trim_start(t)[j];
            assert(s[k + 1] == t[k]);
        }
    } else {
        assert forall|j: int| 0 <= j < trim_start(s).len() implies exists|k: int|
            0 <= k < s.len() && s[k] == #[trigger] trim_start(s)[j] by {
            assert(s[j] == trim_start(s)[j]);
        }
    }
}

proof fn lemma_trim_end_within(s: Seq<char>)
    ensures
        forall|j: int|
            0 <= j < trim_end(s).len() ==> exists|k: int|
                0 <= k < s.len() && s[k] == #[trigger] trim_end(s)[j],
    decreases s.len(),
{
    if s.len() > 0 && is_ws(s.last()) {
        let t = s.drop_last();
        lemma_trim_end_within(t);
        assert forall|j: int| 0 <= j < trim_end(s).len() implies exists|k: int|
            0 <= k < s.len() && s[k] == #[trigger] trim_end(s)[j] by {
            let k = choose|k: int| 0 <= k < t.len() && t[k] == trim_end(t)[j];
            assert(s[k] == t[k]);
        }
    } else {
        assert forall|j: int| 0 <= j < trim_end(s).len() implies exists|k: int|
            0 <= k < s.len() && s[k] == #[trigger] trim_end(s)[j] by {
            assert(s[j] == trim_end(s)[j]);
        }
    }
}

/// The lexer never puts a space, a newline, a tab or a `:` into a token.
pub proof fn lemma_tokens_have_no_separators(s: Seq<char>)
    ensures
        separator_free(lex_run(s)),
    decreases s.len(),
{
    if s.len() > 0 {
        lemma_tokens_have_no_separators(s.drop_last());
        let st = lex_run(s.drop_last());
        let c = s.last();
        let st2 = lex_step(st, c);
        if !st.stopped && c == ';' && st.pending.len() > 0 {
            lemma_trim_within(st.pending);
            let t = trim(st.pending);
            assert forall|j: int| 0 <= j < t.len() implies !is_separator(#[trigger] t[j]) by {
                let k = choose|k: int| 0 <= k < st.pending.len() && st.pending[k] == t[j];
            }
        }
        assert forall|i: int, j: int|
            0 <= i < st2.tokens.len() && 0 <= j < st2.tokens[i].len() implies !is_separator(
            #[trigger] st2.tokens[i][j],
        ) by {
            if i < st.tokens.len() {
                assert(st2.tokens[i] == st.tokens[i]);
            }
        }
    }
}

/// Each token gives exactly one word, and the words so far are followed by the variables
/// defined so far, none of them twice.
pub proof fn lemma_parse_run_shape(tokens: Seq<Seq<char>>)
    ensures
        parse_run(tokens) matches Ok((code, vars)) ==> code.len() == tokens.len()
            && vars.no_duplicates() && vars.len() <= tokens.len(),
    decreases tokens.len(),
{
    if tokens.len() > 0 {
        lemma_parse_run_shape(tokens.drop_last());
        if let Ok((code, vars)) = parse_run(tokens.drop_last()) {
            let t = tokens.last();
            if let Ok((c2, v2)) = parse_step(code, vars, t) {
                if v2 != vars {
                    assert(!vars.contains(t));
                    assert forall|i: int, j: int|
                        0 <= i < v2.len() && 0 <= j < v2.len() && i != j implies v2[i]
                        != v2[j] by {
                        if i == vars.len() {
                            assert(vars[j] == v2[j]);
                        } else if j == vars.len() {
                            assert(vars[i] == v2[i]);
                        }
                    }
                }
            }
        }
    }
}

/// Where a token may stand in a statement: the first two tokens and every odd-numbered one
/// after them are operands (a number, possibly negative, or a variable defined so far);
/// the others are one of `+ - * / %`.
pub open spec fn well_placed(t: Seq<char>, i: int, vars: Seq<Seq<char>>) -> bool {
    if i < 2 || i % 2 == 1 {
        parse_i32(t) is Some || vars.contains(t)
    } else {
        t == seq!['+'] || t == seq!['-'] || t == seq!['*'] || t == seq!['/'] || t == seq!['%']
    }
}

/// A statement's tokens pass the check exactly when each stands where it may: any number
/// that parses as an `i32`, negative ones included, is accepted at every operand position.
pub proof fn lemma_statement_pattern(tokens: Seq<Seq<char>>, vars: Seq<Seq<char>>)
    ensures
        check_expr(tokens, vars) is Ok <==> forall|i: int|
            0 <= i < tokens.len() ==> well_placed(#[trigger] tokens[i], i, vars),
    decreases tokens.len(),
{
    if tokens.len() > 0 {
        let p = tokens.drop_last();
        lemma_statement_pattern(p, vars);
        let n = tokens.len() - 1;
        assert forall|i: int| 0 <= i < n implies tokens[i] == p[i] by {}
        if check_expr(tokens, vars) is Ok {
            assert forall|i: int| 0 <= i < tokens.len() implies well_placed(
                #[trigger] tokens[i],
                i,
                vars,
            ) by {
                if i < n {
                    assert(well_placed(p[i], i, vars));
                }
            }
        }
        if forall|i: int| 0 <= i < tokens.len() ==> well_placed(#[trigger] tokens[i], i, vars) {
            assert forall|i: int| 0 <= i < p.len() implies well_placed(#[trigger] p[i], i, vars) by {
                assert(well_placed(tokens[i], i, vars));
            }
            assert(well_placed(tokens[n], n, vars));
        }
    }
}

/// The statement check never reports a pattern error.
proof fn lemma_check_expr_no_pattern(tokens: Seq<Seq<char>>, vars: Seq<Seq<char>>)
    ensures
        check_expr(tokens, vars) != Err::<(), SyntaxFault>(SyntaxFault::PatternError),
    decreases tokens.len(),
{
    if tokens.len() > 0 {
        lemma_check_expr_no_pattern(tokens.drop_last(), vars);
    }
}

/// A definition line `$name:rhs;` is rejected as a pattern error exactly when its
/// right-hand side `rhs` has at most two bytes besides whitespace, however long the
/// variable's name (when the name is new).
pub proof fn lemma_definition_pattern(name: Seq<char>, rhs: Seq<char>, vars: Seq<Seq<char>>)
    requires
        forall|j: int| 0 <= j < name.len() ==> #[trigger] name[j] != ':' && name[j] != ';',
        forall|j: int| 0 <= j < rhs.len() ==> #[trigger] rhs[j] != ';',
        rhs.len() == 0 || !is_ws(rhs.last()),
        !vars.contains(strip_ws(name)),
    ensures
        utf8_len(strip_ws(rhs)) <= 2 <==> check_line(
            seq!['$'] + name + seq![':'] + rhs + seq![';'],
            vars,
        ) == Err::<Seq<Seq<char>>, SyntaxFault>(SyntaxFault::PatternError),
{
    let body = seq!['$'] + name + seq![':'] + rhs;
    let line = body + seq![';'];
    assert(line =~= seq!['$'] + name + seq![':'] + rhs + seq![';']);
    let m = name.len() as int;
    assert forall|j: int| 0 <= j < body.len() implies line[j] != ';' by {
        if 1 <= j < m + 1 {
            assert(line[j] == name[j - 1]);
        } else if m + 2 <= j {
            assert(line[j] == rhs[j - m - 2]);
        }
    }
    lemma_first_index_at(line, ';', body.len() as int);
    assert(line.take(body.len() as int) =~= body);
    assert(!is_ws('$') && !is_ws(':'));
    assert(trim_start(body) == body);
    if rhs.len() > 0 {
        assert(body.last() == rhs.last());
    }
    assert(trim_end(body) == body);
    assert forall|j: int| 0 <= j < m + 1 implies body[j] != ':' by {
        if j >= 1 {
            assert(body[j] == name[j - 1]);
        }
    }
    lemma_first_index_at(body, ':', m + 1);
    assert(body.subrange(1, m + 1) =~= name);
    assert(body.skip(m + 2) =~= rhs);
    lemma_check_expr_no_pattern(words(rhs), vars.push(strip_ws(name)));
}

/// How many characters of `s` are `c`.
pub open spec fn count_char(s: Seq<char>, c: char) -> nat
    decreases s.len(),
{
    if s.len() == 0 {
        0
    } else {
        count_char(s.drop_last(), c) + if s.last() == c {
            1nat
        } else {
            0nat
        }
    }
}

/// How many tokens of `ts` are `t`.
pub open spec fn count_token(ts: Seq<Seq<char>>, t: Seq<char>) -> nat
    decreases ts.len(),
{
    if ts.len() == 0 {
        0
    } else {
        count_token(ts.drop_last(), t) + if ts.last() == t {
            1nat
        } else {
            0nat
        }
    }
}

/// `first_index` of a sequence one longer.
proof fn lemma_first_index_push(p: Seq<char>, c: char, x: char)
    ensures
        first_index(p.push(c), x) == if first_index(p, x) < p.len() {
            first_index(p, x)
        } else if c == x {
            p.len() as int
        } else {
            p.len() + 1int
        },
{
    let s = p.push(c);
    lemma_first_index(p, x);
    let k = first_index(p, x);
    assert forall|j: int| 0 <= j < k implies s[j] != x by {
        assert(s[j] == p[j]);
    }
    if k < p.len() {
        assert(s[k] == p[k]);
        lemma_first_index_at(s, x, k);
    } else if c == x {
        lemma_first_index_at(s, x, p.len() as int);
    } else {
        lemma_first_index_at(s, x, p.len() + 1int);
    }
}

/// What the lexer keeps: it has stopped exactly when a `}` was read, the token being read
/// holds no `;`, and there are as many `;` tokens as `;` characters before the first `}`.
proof fn lemma_semicolon_tokens_inv(s: Seq<char>)
    ensures
        lex_run(s).stopped == (first_index(s, '}') < s.len()),
        forall|j: int| 0 <= j < lex_run(s).pending.len() ==> #[trigger] lex_run(s).pending[j] != ';',
        count_token(lex_run(s).tokens, seq![';']) == count_char(s.take(first_index(s, '}')), ';'),
    decreases s.len(),
{
    lemma_first_index(s, '}');
    if s.len() == 0 {
        assert(s.take(0) =~= Seq::<char>::empty());
        return;
    }
    let p = s.drop_last();
    let c = s.last();
    assert(p.push(c) =~= s);
    assert(s.drop_last() =~= p);
    assert(lex_run(s) == lex_step(lex_run(p), c));
    lemma_semicolon_tokens_inv(p);
    lemma_first_index_push(p, c, '}');
    lemma_first_index(p, '}');
    let st = lex_run(p);
    let semi = seq![';'];
    let fp = first_index(p, '}');
    if fp < p.len() {
        assert(s.take(fp) =~= p.take(fp));
        assert(lex_run(s) == st);
        assert(count_token(lex_run(s).tokens, semi) == count_char(s.take(first_index(s, '}')), ';'));
    } else {
        assert(p.take(fp) =~= p);
        if c == '}' {
            assert(s.take(p.len() as int) =~= p);
            assert(seq!['}'] != semi) by {
                assert(seq!['}'][0] != semi[0]);
            }
            assert(st.tokens.push(seq!['}']).drop_last() =~= st.tokens);
            assert(count_token(lex_run(s).tokens, semi) == count_token(st.tokens, semi));
            assert(count_token(lex_run(s).tokens, semi) == count_char(s.take(first_index(s, '}')), ';'));
        } else {
            assert(s.take(s.len() as int) =~= s);
            assert(count_char(s, ';') == count_char(p, ';') + if c == ';' {
                1nat
            } else {
                0nat
            });
            assert(seq!['{'] != semi) by {
                assert(seq!['{'][0] != semi[0]);
            }
            if c == ' ' && st.pending.len() > 0 {
                assert(st.pending != semi) by {
                    assert(st.pending[0] != ';');
                }
            }
            if c == ';' && st.pending.len() > 0 {
                lemma_trim_within(st.pending);
                let t = trim(st.pending);
                if t == semi {
                    assert(t[0] == ';');
                    let k = choose|k: int| 0 <= k < st.pending.len() && st.pending[k] == t[0];
                    assert(st.pending[k] != ';');
                }
            }
            let st2 = lex_step(st, c);
            assert(!st.stopped);
            if c == '{' {
                assert(st.tokens.push(seq!['{']).drop_last() =~= st.tokens);
                assert(count_token(st.tokens.push(seq!['{']), semi) == count_token(st.tokens, semi));
            } else if c == ' ' && st.pending.len() > 0 {
                assert(st.tokens.push(st.pending).drop_last() =~= st.tokens);
                assert(count_token(st.tokens.push(st.pending), semi) == count_token(st.tokens, semi));
            } else if c == ';' {
                if st.pending.len() > 0 {
                    let t = trim(st.pending);
                    assert(st.tokens.push(t).push(semi).drop_last() =~= st.tokens.push(t));
                    assert(st.tokens.push(t).drop_last() =~= st.tokens);
                    assert(t != semi);
                    assert(count_token(st.tokens.push(t), semi) == count_token(st.tokens, semi));
                    assert(count_token(st.tokens.push(t).push(semi), semi) == count_token(
                        st.tokens.push(t),
                        semi,
                    ) + 1);
                } else {
                    assert(st.tokens.push(semi).drop_last() =~= st.tokens);
                    assert(count_token(st.tokens.push(semi), semi) == count_token(st.tokens, semi)
                        + 1);
                }
            }
            assert forall|j: int| 0 <= j < st2.pending.len() implies #[trigger] st2.pending[j]
                != ';' by {
                if j < st.pending.len() {
                    assert(st2.pending[j] == st.pending[j]);
                }
            }
            assert(lex_run(s) == st2);
            assert(first_index(s, '}') == s.len());
            assert(count_token(st2.tokens, semi) == count_token(st.tokens, semi) + if c == ';' {
                1nat
            } else {
                0nat
            });
            assert(count_token(lex_run(s).tokens, semi) == count_char(s.take(first_index(s, '}')), ';'));
        }
    }
}

/// Every `;` read before the closing `}` gives exactly one `;` token: the lexer's `;`
/// tokens are as many as the `;` characters before the first `}` of the text.
pub proof fn lemma_semicolon_tokens(s: Seq<char>)
    ensures
        count_token(lex_run(s).tokens, seq![';']) == count_char(s.take(first_index(s, '}')), ';'),
{
    lemma_semicolon_tokens_inv(s);
}

/// A compiled program has one word per token and ends with `HALT_NSTRUCTON`; the
/// variables it defines are distinct.
pub proof fn lemma_compile_shape(tokens: Seq<Seq<char>>)
    ensures
        compile(tokens) matches Ok(code) ==> code.len() == tokens.len() + 1 && code.last()
            == HALT_NSTRUCTON,
        parse_run(tokens) matches Ok((_, vars)) ==> vars.no_duplicates(),
{
    lemma_parse_run_shape(tokens);
}

} // verus!
