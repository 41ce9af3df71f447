//! Uniform error taxonomy for the storage stack: every failure carries a
//! stable numeric code, a human-readable message, an optional description of
//! an underlying cause, and an optional chained library error.

use vstd::prelude::*;

verus! {

/// Result type used across the storage stack.
pub type ZKResult<T> = Result<T, ZKError>;

/// A wrapped storage error. `code` is a stable numeric identifier, `msg` a
/// human-readable message. `err` optionally describes an underlying cause
/// produced outside this library; `wrapped_error` optionally chains another
/// library error for multi-level cause inspection.
#[derive(Debug)]
pub struct ZKError {
    code: usize,
    msg: String,
    err: Option<String>,
    wrapped_error: Option<Box<ZKError>>,
}

/// The decimal digit `d` (which must be below ten) as a one-character text.
pub open spec fn digit_seq(d: nat) -> Seq<char> {
    if d == 0 {
        "0"@
    } else if d == 1 {
        "1"@
    } else if d == 2 {
        "2"@
    } else if d == 3 {
        "3"@
    } else if d == 4 {
        "4"@
    } else if d == 5 {
        "5"@
    } else if d == 6 {
        "6"@
    } else if d == 7 {
        "7"@
    } else if d == 8 {
        "8"@
    } else {
        "9"@
    }
}

/// The usual decimal rendering of `n`, most significant digit first and
/// without leading zeroes.
pub open spec fn dec_rep(n: nat) -> Seq<char>
    decreases n,
{
    if n < 10 {
        digit_seq(n)
    } else {
        dec_rep(n / 10) + digit_seq(n % 10)
    }
}

/// Appends the decimal rendering of `n` to `out`.
fn push_decimal(n: usize, out: &mut String)
    ensures
        final(out)@ == old(out)@ + dec_rep(n as nat),
    decreases n,
{
    if n >= 10 {
        assert(n / 10 < n) by (nonlinear_arith)
            requires
                n >= 10,
        ;
        push_decimal(n / 10, out);
    }
    let d = n % 10;
    let digit = if d == 0 {
        "0"
    } else if d == 1 {
        "1"
    } else if d == 2 {
        "2"
    } else if d == 3 {
        "3"
    } else if d == 4 {
        "4"
    } else if d == 5 {
        "5"
    } else if d == 6 {
        "6"
    } else if d == 7 {
        "7"
    } else if d == 8 {
        "8"
    } else {
        "9"
    };
    out.append(digit);
    proof {
        assert(digit@ == digit_seq((n % 10) as nat));
        if n < 10 {
            assert(n % 10 == n);
        }
    }
}

impl ZKError {
    /// The stable numeric code of this error.
    pub closed spec fn spec_code(&self) -> usize {
        self.code
    }

    /// The human-readable message of this error.
    pub closed spec fn spec_msg(&self) -> Seq<char> {
        self.msg@
    }

    /// The description of the underlying cause, if one was attached.
    pub closed spec fn spec_cause(&self) -> Option<Seq<char>> {
        match self.err {
            Some(ref s) => Some(s@),
            None => None,
        }
    }

    /// The chained library error, if one was attached.
    pub closed spec fn spec_wrapped(&self) -> Option<ZKError> {
        match self.wrapped_error {
            Some(ref b) => Some(**b),
            None => None,
        }
    }

    pub fn get_code(&self) -> (c: usize)
        ensures
            c == self.spec_code(),
    {
        self.code
    }

    pub fn get_msg(&self) -> (m: &String)
        ensures
            m@ == self.spec_msg(),
    {
        &self.msg
    }

    /// A fresh error with the given code and message and no cause attached.
    pub fn new(code: usize, msg: String) -> (e: ZKError)
        ensures
            e.spec_code() == code,
            e.spec_msg() == msg@,
            e.spec_cause() is None,
            e.spec_wrapped() is None,
    {
        ZKError { code, msg, err: None, wrapped_error: None }
    }

    /// Chains `e` under this error; code, message and cause stay unchanged.
    pub fn with_wrapped_error(self, e: Box<ZKError>) -> (r: ZKError)
        ensures
            r.spec_code() == self.spec_code(),
            r.spec_msg() == self.spec_msg(),
            r.spec_cause() == self.spec_cause(),
            r.spec_wrapped() == Some(*e),
    {
        ZKError { code: self.code, msg: self.msg, err: self.err, wrapped_error: Some(e) }
    }

    /// Attaches the description of an underlying cause; code, message and
    /// chained error stay unchanged.
    pub fn with_error(self, e: String) -> (r: ZKError)
        ensures
            r.spec_code() == self.spec_code(),
            r.spec_msg() == self.spec_msg(),
            r.spec_cause() == Some(e@),
            r.spec_wrapped() == self.spec_wrapped(),
    {
        ZKError { code: self.code, msg: self.msg, err: Some(e), wrapped_error: self.wrapped_error }
    }

    /// The chained library error underlying this one, if any.
    pub fn source(&self) -> (r: Option<&ZKError>)
        ensures
            match r {
                Some(w) => self.spec_wrapped() == Some(*w),
                None => self.spec_wrapped() is None,
            },
    {
        match &self.wrapped_error {
            Some(v) => Some(v),
            None => None,
        }
    }

    /// The rendering produced by `describe`: the code and message, then the
    /// cause description and the chained error's rendering where present.
    pub closed spec fn display_of(self) -> Seq<char>
        decreases self,
    {
        "code="@ + dec_rep(self.code as nat) + ",msg="@ + self.msg@ + (match self.err {
            Some(ref s) => ",err="@ + s@,
            None => Seq::<char>::empty(),
        }) + (match self.wrapped_error {
            Some(ref b) => ",wrapped err="@ + b.display_of(),
            None => Seq::<char>::empty(),
        })
    }

    /// Renders this error as text, including the cause chain.
    pub fn describe(&self) -> (s: String)
        ensures
            s@ == self.display_of(),
        decreases *self,
    {
        let mut s = String::new();
        s.append("code=");
        push_decimal(self.code, &mut s);
        s.append(",msg=");
        s.append(self.msg.as_str());
        match &self.err {
            Some(e) => {
                s.append(",err=");
                s.append(e.as_str());
            },
            None => {},
        }
        match &self.wrapped_error {
            Some(v) => {
                s.append(",wrapped err=");
                let inner = v.describe();
                s.append(inner.as_str());
            },
            None => {},
        }
        s
    }
}

/// The error kinds the stack distinguishes: a stable code paired with its
/// canonical message.
#[derive(Debug)]
pub enum ErrorEnums {
    Kind(usize, &'static str),
}

impl ErrorEnums {
    /// The numeric code of this kind.
    pub open spec fn code_of(&self) -> usize {
        match *self {
            ErrorEnums::Kind(c, _) => c,
        }
    }

    /// The canonical message of this kind.
    pub open spec fn msg_of(&self) -> Seq<char> {
        match *self {
            ErrorEnums::Kind(_, m) => m@,
        }
    }

    pub fn get_code(&self) -> (c: usize)
        ensures
            c == self.code_of(),
    {
        match self {
            ErrorEnums::Kind(code, _) => *code,
        }
    }

    pub fn get_msg(&self) -> (m: &'static str)
        ensures
            m@ == self.msg_of(),
    {
        match self {
            ErrorEnums::Kind(_, msg) => *msg,
        }
    }

    /// A kind stands for success exactly when its code is zero.
    pub fn is_success(&self) -> (b: bool)
        ensures
            b == (self.code_of() == 0),
    {
        self.get_code() == 0
    }

    /// The kind reporting success.
    pub fn success() -> (e: ErrorEnums)
        ensures
            e.code_of() == 0,
            e.msg_of() == "success"@,
    {
        ErrorEnums::Kind(0, "success")
    }

    /// The kind for failures the stack cannot classify further, such as
    /// engine-internal storage failures.
    pub fn unknown() -> (e: ErrorEnums)
        ensures
            e.code_of() == 1,
            e.msg_of() == "unknown"@,
    {
        ErrorEnums::Kind(1, "unknown")
    }

    /// The kind for failures of the durable medium.
    pub fn io_error() -> (e: ErrorEnums)
        ensures
            e.code_of() == 2,
            e.msg_of() == "IO FAILED"@,
    {
        ErrorEnums::Kind(2, "IO FAILED")
    }

    /// Builds the library error carrying this kind's code and message.
    pub fn to_error(&self) -> (r: ZKError)
        ensures
            r.spec_code() == self.code_of(),
            r.spec_msg() == self.msg_of(),
            r.spec_cause() is None,
            r.spec_wrapped() is None,
    {
        ZKError::new(self.get_code(), self.get_msg().to_owned())
    }
}

} // verus!
