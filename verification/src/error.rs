//! Error kinds: reading errors, evaluation errors, and a general-purpose
//! error value with an optional explanation.

use vstd::prelude::*;

verus! {

/// A reading failure: the source text's parentheses do not balance, or a
/// stray token stands where no form is open.
#[derive(Debug, PartialEq, Eq, Clone, Copy)]
pub enum ParseError {
    Unbalanced,
}

/// Ghost mirror of [`EvalError`].
pub enum EvalErrModel {
    UnboundSymbol(Seq<char>),
    InvalidOperatorPosition,
    SpecialFormArity,
    Primitive(Seq<char>),
}

/// An evaluation failure.
#[derive(Debug, PartialEq)]
pub enum EvalError {
    /// A symbol was read for its value but no active scope binds it.
    UnboundSymbol(String),
    /// A form's first element is neither a symbol nor a reducible list.
    InvalidOperatorPosition,
    /// A special form was invoked with the wrong number or shape of
    /// arguments.
    SpecialFormArity,
    /// A failure reported by the primitive dispatcher, message unchanged.
    Primitive(String),
}

impl View for EvalError {
    type V = EvalErrModel;

    open spec fn view(&self) -> EvalErrModel {
        match self {
            EvalError::UnboundSymbol(s) => EvalErrModel::UnboundSymbol(s@),
            EvalError::InvalidOperatorPosition => EvalErrModel::InvalidOperatorPosition,
            EvalError::SpecialFormArity => EvalErrModel::SpecialFormArity,
            EvalError::Primitive(s) => EvalErrModel::Primitive(s@),
        }
    }
}

/// Ghost mirror of [`ErrorType`].
pub enum ErrorTypeModel {
    ParsingError { line: int, file: Seq<char> },
    RuntimeError(Seq<char>),
}

/// The two broad classes a [`LispError`] falls into.
#[derive(Debug, Clone, PartialEq)]
pub enum ErrorType {
    ParsingError { line: usize, file: String },
    RuntimeError(String),
}

impl View for ErrorType {
    type V = ErrorTypeModel;

    open spec fn view(&self) -> ErrorTypeModel {
        match self {
            ErrorType::ParsingError { line, file } => ErrorTypeModel::ParsingError {
                line: *line as int,
                file: file@,
            },
            ErrorType::RuntimeError(s) => ErrorTypeModel::RuntimeError(s@),
        }
    }
}

/// Ghost mirror of [`LispError`].
pub struct LispErrModel {
    pub explanation: Option<Seq<char>>,
    pub err_type: ErrorTypeModel,
}

/// A general-purpose error value: a classified cause, with an optional
/// explanation added later.
#[derive(Debug, Clone, PartialEq)]
pub struct LispError {
    pub explanation: Option<String>,
    pub err_type: ErrorType,
}

impl View for LispError {
    type V = LispErrModel;

    open spec fn view(&self) -> LispErrModel {
        LispErrModel {
            explanation: match &self.explanation {
                Some(s) => Some(s@),
                None => None,
            },
            err_type: self.err_type@,
        }
    }
}

impl LispError {
    /// A parsing error at the given line of the given file, with no
    /// explanation yet.
    pub fn parsing_error(line: usize, file_name: String) -> (r: Self)
        ensures
            r@.explanation is None,
            r@.err_type == (ErrorTypeModel::ParsingError { line: line as int, file: file_name@ }),
    {
        Self {
            explanation: None,
            err_type: ErrorType::ParsingError { line, file: file_name },
        }
    }

    /// A runtime error carrying the given message, with no explanation yet.
    pub fn runtime_error(obj: &str) -> (r: Self)
        ensures
            r@.explanation is None,
            r@.err_type == ErrorTypeModel::RuntimeError(obj@),
    {
        Self { explanation: None, err_type: ErrorType::RuntimeError(obj.to_owned()) }
    }

    /// The same error with its explanation replaced by `reason`.
    pub fn add_reason(self, reason: &str) -> (r: Self)
        ensures
            r@.explanation == Some(reason@),
            r@.err_type == self@.err_type,
    {
        Self { explanation: Some(reason.to_owned()), err_type: self.err_type }
    }
}


/// The text of an [`ErrorType`]: a parsing error as `line: file`, a runtime
/// error as its message.
pub open spec fn error_type_text(e: ErrorTypeModel) -> Seq<char> {
    match e {
        ErrorTypeModel::ParsingError { line, file } => crate::lispobject::dec_digits(line)
            + seq![':', ' '] + file,
        ErrorTypeModel::RuntimeError(s) => s,
    }
}

/// The text of a [`LispError`]: its classified cause, then ` => ` and the
/// explanation when one was added.
pub open spec fn lisp_error_text(e: LispErrModel) -> Seq<char> {
    match e.explanation {
        Some(x) => error_type_text(e.err_type) + seq![' ', '=', '>', ' '] + x,
        None => error_type_text(e.err_type),
    }
}

impl ErrorType {
    /// The error's text.
    pub fn to_string(&self) -> (r: String)
        ensures
            r@ == error_type_text(self@),
    {
        match self {
            ErrorType::ParsingError { line, file } => {
                let mut out = crate::lispobject::digits_string(*line as u64);
                proof {
                    reveal_strlit(": ");
                }
                out.append(": ");
                out.append(file.as_str());
                proof {
                    assert(out@ =~= error_type_text(self@));
                }
                out
            },
            ErrorType::RuntimeError(s) => s.clone(),
        }
    }
}

impl LispError {
    /// The error's text.
    pub fn to_string(&self) -> (r: String)
        ensures
            r@ == lisp_error_text(self@),
    {
        let mut out = self.err_type.to_string();
        if let Some(x) = &self.explanation {
            proof {
                reveal_strlit(" => ");
            }
            out.append(" => ");
            out.append(x.as_str());
            proof {
                assert(out@ =~= lisp_error_text(self@));
            }
        }
        out
    }
}


/// The text of an [`EvalError`]: the primitive dispatcher's message is
/// passed on unchanged; the other kinds name themselves, an unbound symbol
/// with the name that failed to resolve.
pub open spec fn eval_error_text(e: EvalErrModel) -> Seq<char> {
    match e {
        EvalErrModel::UnboundSymbol(s) => "Unbound symbol: "@ + s,
        EvalErrModel::InvalidOperatorPosition => "First element must be a symbol."@,
        EvalErrModel::SpecialFormArity => "Wrong number of arguments for a special form."@,
        EvalErrModel::Primitive(s) => s,
    }
}

impl EvalError {
    /// The error's text.
    pub fn to_string(&self) -> (r: String)
        ensures
            r@ == eval_error_text(self@),
    {
        match self {
            EvalError::UnboundSymbol(s) => {
                let mut out = String::from_str("Unbound symbol: ");
                out.append(s.as_str());
                proof {
                    assert(out@ =~= eval_error_text(self@));
                }
                out
            },
            EvalError::InvalidOperatorPosition => String::from_str(
                "First element must be a symbol.",
            ),
            EvalError::SpecialFormArity => String::from_str(
                "Wrong number of arguments for a special form.",
            ),
            EvalError::Primitive(s) => s.clone(),
        }
    }
}

} // verus!
