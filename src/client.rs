//! The client value: the account's credentials and the service's address.
use vstd::prelude::*;

use secstr::SecStr;
use vstd::utf8::encode_utf8;

verus! {

#[verifier::external_type_specification]
#[verifier::external_body]
#[verifier::reject_recursive_types(T)]
pub struct ExSecVec<T>(secstr::SecVec<T>) where T: Sized + Copy;

/// The bytes that a secret holds.
pub uninterp spec fn secret_bytes(v: SecStr) -> Seq<u8>;

/// Relies on `secstr::SecStr::from` (`SecVec::new` on the string's bytes):
/// the secret holds the UTF-8 bytes of `s`, moved into memory that is kept
/// out of swap and zeroed when dropped.
#[verifier::external_body]
fn secure(s: String) -> (r: SecStr)
    ensures
        secret_bytes(r) == encode_utf8(s@),
{
    SecStr::from(s)
}

/// The address of the service's API that a new client talks to.
pub const BASE_URL: &'static str = "https://bsky.social/xrpc";

/// A client of the service. The handle and the app password are held as
/// secrets: nothing reads them back.
pub struct BlueSkyClient {
    handle: SecStr,
    app_password: SecStr,
    base_url: String,
}

impl BlueSkyClient {
    /// The address of the API that the client talks to.
    pub closed spec fn base_url_view(&self) -> Seq<char> {
        self.base_url@
    }

    /// The account's handle, as the bytes of the secret that holds it.
    pub closed spec fn handle_view(&self) -> Seq<u8> {
        secret_bytes(self.handle)
    }

    /// The account's app password, as the bytes of the secret that holds it.
    pub closed spec fn app_password_view(&self) -> Seq<u8> {
        secret_bytes(self.app_password)
    }

    /// A client for the given account, talking to `BASE_URL`; the handle and
    /// the app password are kept, as UTF-8, in secrets.
    pub fn new(handle: String, app_password: String) -> (r: Self)
        ensures
            r.handle_view() == encode_utf8(handle@),
            r.app_password_view() == encode_utf8(app_password@),
            r.base_url_view() == BASE_URL@,
    {
        BlueSkyClient {
            handle: secure(handle),
            app_password: secure(app_password),
            base_url: BASE_URL.to_owned(),
        }
    }

    /// The address of the API that the client talks to.
    pub fn base_url(&self) -> (r: &str)
        ensures
            r@ == self.base_url_view(),
    {
        self.base_url.as_str()
    }

    /// Posting is not implemented: the message is accepted and nothing is sent.
    pub fn post_message(&self, _message: &str, _visibility: Option<String>) {
    }

    /// Reading posts is not implemented: nothing is fetched.
    pub fn read_posts(&self, _limit: u32, _time_range: Option<String>) {
    }
}

} // verus!
