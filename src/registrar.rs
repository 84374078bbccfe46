//! The registrar's records and the envelope its API answers in.
use vstd::prelude::*;

verus! {

/// A DNS record as the registrar holds it.
#[derive(Debug)]
pub struct Record {
    pub name: String,
    pub id: String,
    pub ttl: usize,
    pub record_type: RecordType,
    pub content: Option<String>,
    pub comment: Option<String>,
    pub proxied: Option<bool>,
}

/// The record types the registrar knows.
#[derive(Debug, Clone, Copy, PartialEq, Eq, Structural)]
pub enum RecordType {
    A,
    AAAA,
    CAA,
    CERT,
    CNAME,
    DNSKEY,
    DS,
    HTTPS,
    LOC,
    MX,
    NAPTR,
    NS,
    OPENPGPKEY,
    PTR,
    SMIMEA,
    SRV,
    SSHFP,
    SVCB,
    TLSA,
    TXT,
    URI,
}

/// The envelope of every registrar answer.
#[derive(Debug)]
pub struct CloudflareResponse<T> {
    pub errors: Vec<CFError>,
    pub messages: Vec<CFError>,
    pub success: bool,
    pub result: Option<T>,
    pub result_info: Option<ResultInfo>,
}

/// Paging information of a listing.
#[derive(Debug)]
pub struct ResultInfo {
    pub count: usize,
    pub page: usize,
    pub per_page: usize,
    pub total_count: usize,
}

/// An error or message that the registrar reports.
#[derive(Debug)]
pub struct CFError {
    pub code: usize,
    pub message: String,
    pub documentation_url: Option<String>,
    pub source: Option<CFSource>,
}

#[derive(Debug)]
pub struct CFSource {
    pub pointer: Option<String>,
}

/// Why a registrar answer carries no usable result.
#[derive(Debug)]
pub enum RegistrarError {
    /// The envelope says the call failed; the registrar's own errors and messages.
    Rejected { errors: Vec<CFError>, messages: Vec<CFError> },
    /// The envelope says success but holds no result.
    MissingResult,
}

/// The result inside an envelope: it is owed when the envelope reports success and
/// holds one; a failed envelope is reported with its errors.
pub fn envelope_result<T>(resp: CloudflareResponse<T>) -> (r: Result<T, RegistrarError>)
    ensures
        !resp.success ==> (r matches Err(RegistrarError::Rejected { errors, messages })
            && errors@ == resp.errors@ && messages@ == resp.messages@),
        resp.success && resp.result is None ==> r matches Err(RegistrarError::MissingResult),
        resp.success && resp.result is Some ==> r == Ok::<T, RegistrarError>(
            resp.result->Some_0,
        ),
{
    if !resp.success {
        return Err(RegistrarError::Rejected { errors: resp.errors, messages: resp.messages });
    }
    match resp.result {
        Some(t) => Ok(t),
        None => Err(RegistrarError::MissingResult),
    }
}

} // verus!
