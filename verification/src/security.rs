//! Credentials for the SASL mechanisms that the broker offers.
use vstd::prelude::*;
use vstd::utf8::encode_utf8;
use vstd::utf8::decode_utf8;
use vstd::utf8::valid_utf8;
use crate::buffer::bytes_mut_contents;
use crate::buffer::new_buffer;
use crate::buffer::put_u8;
use crate::buffer::buffer_to_vec;
use crate::long_str::LongStr;
use crate::short_str::ShortStr;
use crate::text::string_from_utf8;
use crate::text::all_ascii_bytes;
use crate::text::lemma_ascii_bytes_valid_utf8;
use crate::buffer::be_u32_bytes;

verus! {

/// User name and password, and the mechanism by which they are sent.
#[derive(Debug)]
pub struct SecurityCredentials {
    pub username: String,
    pub password: String,
    mechanism: AuthenticationMechanism,
}

#[derive(Debug, Clone)]
#[non_exhaustive]
enum AuthenticationMechanism {
    PLAIN,
    AMQPLAIN,
}

impl Clone for SecurityCredentials {
    fn clone(&self) -> (r: Self)
        ensures
            r.username_view() == self.username_view(),
            r.password_view() == self.password_view(),
            r.is_plain() == self.is_plain(),
    {
        let mechanism = match self.mechanism {
            AuthenticationMechanism::PLAIN => AuthenticationMechanism::PLAIN,
            AuthenticationMechanism::AMQPLAIN => AuthenticationMechanism::AMQPLAIN,
        };
        SecurityCredentials {
            username: self.username.clone(),
            password: self.password.clone(),
            mechanism,
        }
    }
}

/// The field-table type tag of a long-string value: the letter `S`.
pub const LONG_STR_TAG: u8 = 0x53;

impl SecurityCredentials {
    /// The text of the user name.
    pub closed spec fn username_view(self) -> Seq<char> {
        self.username@
    }

    /// The text of the password.
    pub closed spec fn password_view(self) -> Seq<char> {
        self.password@
    }

    /// The credentials use the PLAIN mechanism (else AMQPLAIN).
    pub closed spec fn is_plain(self) -> bool {
        self.mechanism is PLAIN
    }

    /// The name under which a mechanism is announced.
    pub open spec fn mechanism_name(plain: bool) -> Seq<char> {
        if plain {
            "PLAIN"@
        } else {
            "AMQPLAIN"@
        }
    }

    /// The PLAIN response: a NUL, the user name, a NUL, the password.
    pub open spec fn plain_response(username: Seq<char>, password: Seq<char>) -> Seq<char> {
        seq!['\0'] + username + seq!['\0'] + password
    }

    /// The AMQPLAIN response: the field-table entries `LOGIN` and `PASSWORD`,
    /// each a short-string key, the tag `S` and a long-string value, without
    /// the table's own length prefix.
    pub open spec fn amqplain_response(username: Seq<char>, password: Seq<char>) -> Seq<u8> {
        ShortStr::wire("LOGIN"@) + seq![LONG_STR_TAG] + LongStr::wire(username) + ShortStr::wire(
            "PASSWORD"@,
        ) + seq![LONG_STR_TAG] + LongStr::wire(password)
    }

    /// The bytes of the response that `get_response` gives.
    pub open spec fn response_bytes(plain: bool, username: Seq<char>, password: Seq<char>) -> Seq<u8> {
        if plain {
            encode_utf8(SecurityCredentials::plain_response(username, password))
        } else {
            SecurityCredentials::amqplain_response(username, password)
        }
    }

    /// `get_response` returns (and does not panic) on these credentials: always
    /// for PLAIN; for AMQPLAIN when each field fits a long string, the buffer
    /// fits in memory, and the bytes are valid UTF-8, which they are when the
    /// user name and the password are each shorter than 128 bytes.
    pub open spec fn can_respond(plain: bool, username: Seq<char>, password: Seq<char>) -> bool {
        plain || {
            &&& encode_utf8(username).len() <= u32::MAX
            &&& encode_utf8(password).len() <= u32::MAX
            &&& SecurityCredentials::amqplain_response(username, password).len() <= isize::MAX
            &&& valid_utf8(SecurityCredentials::amqplain_response(username, password))
        }
    }

    /// Credentials for the PLAIN mechanism.
    pub fn new_plain(username: &str, password: &str) -> (r: Self)
        ensures
            r.username_view() == username@,
            r.password_view() == password@,
            r.is_plain(),
    {
        Self {
            username: username.to_owned(),
            password: password.to_owned(),
            mechanism: AuthenticationMechanism::PLAIN,
        }
    }

    /// Credentials for the AMQPLAIN mechanism.
    pub fn new_amqplain(username: &str, password: &str) -> (r: Self)
        ensures
            r.username_view() == username@,
            r.password_view() == password@,
            !r.is_plain(),
    {
        Self {
            username: username.to_owned(),
            password: password.to_owned(),
            mechanism: AuthenticationMechanism::AMQPLAIN,
        }
    }

    /// The name of the mechanism, as sent to the broker.
    pub fn get_mechanism_name(&self) -> (r: &str)
        ensures
            r@ == SecurityCredentials::mechanism_name(self.is_plain()),
    {
        match self.mechanism {
            AuthenticationMechanism::PLAIN => "PLAIN",
            AuthenticationMechanism::AMQPLAIN => "AMQPLAIN",
        }
    }

    /// The response to the broker's challenge.
    pub fn get_response(&self) -> (r: String)
        requires
            SecurityCredentials::can_respond(self.is_plain(), self.username_view(), self.password_view()),
        ensures
            encode_utf8(r@) == SecurityCredentials::response_bytes(
                self.is_plain(),
                self.username_view(),
                self.password_view(),
            ),
            self.is_plain() ==> r@ == SecurityCredentials::plain_response(
                self.username_view(),
                self.password_view(),
            ),
            self.is_plain() ==> r@ == seq!['\0'] + self.username_view() + seq!['\0']
                + self.password_view(),
            !self.is_plain() ==> r@ == decode_utf8(
                SecurityCredentials::amqplain_response(self.username_view(), self.password_view()),
            ),
    {
        match self.mechanism {
            AuthenticationMechanism::PLAIN => {
                let mut r = String::from_str("\0");
                r.append(self.username.as_str());
                r.append("\0");
                r.append(self.password.as_str());
                proof {
                    reveal_strlit("\0");
                    assert(r@ =~= SecurityCredentials::plain_response(
                        self.username_view(),
                        self.password_view(),
                    ));
                }
                r
            },
            AuthenticationMechanism::AMQPLAIN => {
                let ghost u = self.username@;
                let ghost p = self.password@;
                proof {
                    reveal_strlit("LOGIN");
                    reveal_strlit("PASSWORD");
                    vstd::utf8::is_ascii_chars_encode_utf8("LOGIN"@);
                    vstd::utf8::is_ascii_chars_encode_utf8("PASSWORD"@);
                }
                let login = ShortStr::try_from("LOGIN").unwrap();
                let user = LongStr::try_from(self.username.clone()).unwrap();
                let password_key = ShortStr::try_from("PASSWORD").unwrap();
                let pass = LongStr::try_from(self.password.clone()).unwrap();
                let mut buf = new_buffer();
                login.write_to(&mut buf);
                put_u8(&mut buf, LONG_STR_TAG);
                user.write_to(&mut buf);
                password_key.write_to(&mut buf);
                put_u8(&mut buf, LONG_STR_TAG);
                pass.write_to(&mut buf);
                let bytes = buffer_to_vec(&buf);
                assert(bytes@ =~= SecurityCredentials::amqplain_response(u, p));
                proof {
                    vstd::utf8::decode_utf8_encode_utf8(bytes@);
                }
                match string_from_utf8(bytes) {
                    Some(s) => s,
                    None => vstd::pervasive::unreached(),
                }
            },
        }
    }
}

/// The PLAIN response is a NUL, the whole user name, a NUL and the whole
/// password, in that order, whatever their lengths.
pub proof fn law_plain_response_layout(username: Seq<char>, password: Seq<char>)
    ensures
        ({
            let r = SecurityCredentials::plain_response(username, password);
            let u = username.len() as int;
            &&& r.len() == u + password.len() + 2
            &&& r[0] == '\0'
            &&& r.subrange(1, 1 + u) == username
            &&& r[1 + u] == '\0'
            &&& r.subrange(2 + u, r.len() as int) == password
        }),
{
    let r = SecurityCredentials::plain_response(username, password);
    let u = username.len() as int;
    assert(r.subrange(1, 1 + u) =~= username);
    assert(r.subrange(2 + u, r.len() as int) =~= password);
}

/// AMQPLAIN credentials whose user name and password are each shorter than
/// 128 bytes always get a response: the length fields are then plain ASCII,
/// so the response bytes are valid UTF-8.
pub proof fn law_short_amqplain_credentials_respond(username: Seq<char>, password: Seq<char>)
    requires
        encode_utf8(username).len() < 128,
        encode_utf8(password).len() < 128,
    ensures
        SecurityCredentials::can_respond(false, username, password),
{
    reveal_strlit("LOGIN");
    reveal_strlit("PASSWORD");
    vstd::utf8::is_ascii_chars_encode_utf8("LOGIN"@);
    vstd::utf8::is_ascii_chars_encode_utf8("PASSWORD"@);
    let eu = encode_utf8(username);
    let ep = encode_utf8(password);
    let head = ShortStr::wire("LOGIN"@) + seq![LONG_STR_TAG] + be_u32_bytes(eu.len() as u32);
    let middle = ShortStr::wire("PASSWORD"@) + seq![LONG_STR_TAG] + be_u32_bytes(ep.len() as u32);
    let whole = SecurityCredentials::amqplain_response(username, password);
    assert(whole =~= head + eu + middle + ep);
    assert(all_ascii_bytes(head));
    assert(all_ascii_bytes(middle));
    lemma_ascii_bytes_valid_utf8(head);
    lemma_ascii_bytes_valid_utf8(middle);
    vstd::utf8::encode_utf8_valid_utf8(username);
    vstd::utf8::encode_utf8_valid_utf8(password);
    vstd::utf8::valid_utf8_concat(head, eu);
    vstd::utf8::valid_utf8_concat(head + eu, middle);
    vstd::utf8::valid_utf8_concat(head + eu + middle, ep);
}

} // verus!
