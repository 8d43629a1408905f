//! The error taxonomy of the client: structured service errors and the
//! failure kinds a call can surface.

use vstd::prelude::*;

verus! {

/// One structured error reported by the registry service.  A failed response
/// can carry several; all share the response's status code.
#[derive(Debug)]
pub struct AlmaError {
    pub status_code: u16,
    pub error_code: String,
    pub error_message: String,
    pub tracking_id: String,
}

/// `AlmaError`, at the specification level.
pub struct SpecAlmaError {
    pub status_code: u16,
    pub error_code: Seq<char>,
    pub error_message: Seq<char>,
    pub tracking_id: Seq<char>,
}

impl DeepView for AlmaError {
    type V = SpecAlmaError;

    open spec fn deep_view(&self) -> SpecAlmaError {
        SpecAlmaError {
            status_code: self.status_code,
            error_code: self.error_code@,
            error_message: self.error_message@,
            tracking_id: self.tracking_id@,
        }
    }
}

/// The batch of structured errors extracted from one failed response.
#[derive(Debug)]
pub struct AlmaErrors(pub Vec<AlmaError>);

impl DeepView for AlmaErrors {
    type V = Seq<SpecAlmaError>;

    open spec fn deep_view(&self) -> Seq<SpecAlmaError> {
        self.0.deep_view()
    }
}

/// Everything a client call can fail with.
#[derive(Debug)]
pub enum ClientError {
    /// The transport failed before a usable response arrived.
    Transport { detail: String },
    /// A response body could not be decoded.
    Decode { detail: String },
    /// A failed response whose error body could not be classified; the
    /// status code and the declared content type, when one was declared at
    /// all, are all that is known.
    Protocol { status_code: u16, content_type: Option<String> },
    /// Structured errors reported by the service.
    Api(AlmaErrors),
    /// A concurrent page task ended abnormally instead of reporting.
    Join { detail: String },
}

/// The statuses that mean a failed call: client and server errors.
pub open spec fn spec_is_failure_status(status: u16) -> bool {
    400 <= status < 600
}

pub fn is_failure_status(status: u16) -> (r: bool)
    ensures
        r == spec_is_failure_status(status),
{
    400 <= status && status < 600
}

/// The reporting text of one structured error.
pub open spec fn spec_error_message(e: SpecAlmaError) -> Seq<char> {
    "Alma API error:\n Status: "@ + crate::text::dec_digits(e.status_code as nat)
        + "\n Error Code: "@ + e.error_code + "\n Error Message: "@ + e.error_message
}

/// The reporting text of a batch of structured errors, one per line.
pub open spec fn spec_errors_message(errs: Seq<SpecAlmaError>) -> Seq<char>
    decreases errs.len(),
{
    if errs.len() == 0 {
        Seq::empty()
    } else {
        spec_errors_message(errs.drop_last()) + spec_error_message(errs.last()) + "\n"@
    }
}

impl AlmaError {
    /// The reporting text of this error.
    pub fn to_message(&self) -> (r: String)
        ensures
            r@ == spec_error_message(self.deep_view()),
    {
        let mut out: String = String::new();
        out.append("Alma API error:\n Status: ");
        let mut digits: Vec<char> = Vec::new();
        crate::text::push_dec_digits(&mut digits, self.status_code as u64);
        let ds = crate::text::chars_to_string(&digits);
        out.append(ds.as_str());
        out.append("\n Error Code: ");
        out.append(self.error_code.as_str());
        out.append("\n Error Message: ");
        out.append(self.error_message.as_str());
        proof {
            assert((self.status_code as u64) as nat == self.status_code as nat);
            assert(out@ =~= spec_error_message(self.deep_view()));
        }
        out
    }
}

impl AlmaErrors {
    /// The reporting text of the whole batch, one error per line.
    pub fn to_message(&self) -> (r: String)
        ensures
            r@ == spec_errors_message(self.deep_view()),
    {
        let ghost dv = self.0.deep_view();
        let mut out: String = String::new();
        proof {
            assert(dv.take(0) =~= Seq::<SpecAlmaError>::empty());
        }
        let mut i: usize = 0;
        while i < self.0.len()
            invariant
                i <= self.0@.len(),
                dv == self.0.deep_view(),
                dv.len() == self.0@.len(),
                out@ == spec_errors_message(dv.take(i as int)),
            decreases self.0@.len() - i,
        {
            let msg = self.0[i].to_message();
            out.append(msg.as_str());
            out.append("\n");
            proof {
                assert(dv.take(i as int + 1).drop_last() =~= dv.take(i as int));
                assert(dv.take(i as int + 1).last() == dv[i as int]);
                assert(out@ =~= spec_errors_message(dv.take(i as int + 1)));
            }
            i += 1;
        }
        proof {
            assert(dv.take(dv.len() as int) =~= dv);
        }
        out
    }
}

impl ClientError {
    /// The reporting text of this failure.
    pub fn describe(&self) -> (r: String)
        ensures
            self matches ClientError::Transport { detail } ==> r@ == "transport failure: "@
                + detail@,
            self matches ClientError::Decode { detail } ==> r@ == "decode failure: "@ + detail@,
            self matches ClientError::Protocol { status_code, content_type } ==> r@ == (
            match content_type {
                Some(ct) => "unclassifiable failure response: status "@ + crate::text::dec_digits(
                    status_code as nat,
                ) + ", content type "@ + ct@,
                None => "unclassifiable failure response: status "@ + crate::text::dec_digits(
                    status_code as nat,
                ) + ", without a content type"@,
            }),
            self matches ClientError::Api(errs) ==> r@ == spec_errors_message(errs.deep_view()),
            self matches ClientError::Join { detail } ==> r@ == "page task failure: "@ + detail@,
    {
        match self {
            ClientError::Transport { detail } => {
                let mut out: String = String::new();
                out.append("transport failure: ");
                out.append(detail.as_str());
                proof {
                    assert(out@ =~= "transport failure: "@ + detail@);
                }
                out
            },
            ClientError::Decode { detail } => {
                let mut out: String = String::new();
                out.append("decode failure: ");
                out.append(detail.as_str());
                proof {
                    assert(out@ =~= "decode failure: "@ + detail@);
                }
                out
            },
            ClientError::Protocol { status_code, content_type } => {
                let mut out: String = String::new();
                out.append("unclassifiable failure response: status ");
                let mut digits: Vec<char> = Vec::new();
                crate::text::push_dec_digits(&mut digits, *status_code as u64);
                let ds = crate::text::chars_to_string(&digits);
                out.append(ds.as_str());
                match content_type {
                    Some(ct) => {
                        out.append(", content type ");
                        out.append(ct.as_str());
                        proof {
                            assert((*status_code as u64) as nat == *status_code as nat);
                            assert(out@ =~= "unclassifiable failure response: status "@
                                + crate::text::dec_digits(*status_code as nat)
                                + ", content type "@ + ct@);
                        }
                    },
                    None => {
                        out.append(", without a content type");
                        proof {
                            assert((*status_code as u64) as nat == *status_code as nat);
                            assert(out@ =~= "unclassifiable failure response: status "@
                                + crate::text::dec_digits(*status_code as nat)
                                + ", without a content type"@);
                        }
                    },
                }
                out
            },
            ClientError::Api(errs) => errs.to_message(),
            ClientError::Join { detail } => {
                let mut out: String = String::new();
                out.append("page task failure: ");
                out.append(detail.as_str());
                proof {
                    assert(out@ =~= "page task failure: "@ + detail@);
                }
                out
            },
        }
    }

    /// The classification of a failed response whose error body cannot be
    /// understood: all that is known is the status code and the content
    /// type, when one was declared at all.
    pub fn unclassifiable(status_code: u16, content_type: Option<&str>) -> (r: ClientError)
        ensures
            r is Protocol,
            r->Protocol_status_code == status_code,
            match (content_type, r->Protocol_content_type) {
                (Some(given), Some(kept)) => kept@ == given@,
                (None, None) => true,
                _ => false,
            },
    {
        ClientError::Protocol {
            status_code,
            content_type: match content_type {
                Some(ct) => Some(ct.to_owned()),
                None => None,
            },
        }
    }

    /// A decode failure with the given explanation.
    pub fn decode(detail: &str) -> (r: ClientError)
        ensures
            r is Decode,
            r->Decode_detail@ == detail@,
    {
        ClientError::Decode { detail: detail.to_owned() }
    }
}

} // verus!
