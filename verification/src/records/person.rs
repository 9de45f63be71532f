//! The people who keep files on the host.

use crate::text::{byte_len, contains_ascii, lowercase, same_text, to_lowercase};
use crate::utf8::{byte_pos, lemma_byte_pos_split, lemma_byte_pos_step, lemma_char_eq, utf8_len};
use crate::utils::AsRoute;
use crate::whitespace::{lemma_trim_start_len, lemma_word_end, split_word, trim_start, words};
use std::borrow::Cow;
use vstd::prelude::*;
use vstd::string::*;
use vstd::utf8::*;

verus! {

/// What someone who signs up has entered.
pub struct NewPerson {
    username: String,
    email: String,
    password: String,
    password2: String,
}

/// What someone who signs up has entered, as texts.
pub struct NewPersonView {
    pub username: Seq<char>,
    pub email: Seq<char>,
    pub password: Seq<char>,
    pub password2: Seq<char>,
}

/// A person with an account.
pub struct Person {
    pub id: i64,
    pub username: String,
    pub password_hash: String,
    pub created_at: i32,
}

impl View for NewPerson {
    type V = NewPersonView;

    closed spec fn view(&self) -> NewPersonView {
        NewPersonView {
            username: self.username@,
            email: self.email@,
            password: self.password@,
            password2: self.password2@,
        }
    }
}

/// Whether `c` may stand in a user name: an ASCII letter or digit, or `-`.
pub open spec fn is_name_char(c: char) -> bool {
    let v = c as u32;
    (0x30 <= v <= 0x39) || (0x41 <= v <= 0x5a) || (0x61 <= v <= 0x7a) || v == 0x2d
}

/// Whether a user name is kept back, `lowered` being its lower-case form: it
/// is empty, takes more than 32 bytes, or is `www` or `proxy` in letters of
/// either case.
pub open spec fn is_reserved_name(username: Seq<char>, lowered: Seq<char>) -> bool {
    utf8_len(username) > 32 || username.len() == 0 || lowered == "www"@ || lowered == "proxy"@
}

/// `errors` with `message` added where `failed` holds.
pub open spec fn with_error(errors: Seq<Seq<char>>, failed: bool, message: Seq<char>) -> Seq<
    Seq<char>,
> {
    if failed {
        errors.push(message)
    } else {
        errors
    }
}

/// What is wrong with what someone who signs up has entered, `lowered` being
/// the lower-case form of the user name: one message for each rule that is
/// broken, in the order of the rules.
pub open spec fn validation_errors_given(p: NewPersonView, lowered: Seq<char>) -> Seq<Seq<char>> {
    let e0 = Seq::<Seq<char>>::empty();
    let e1 = with_error(e0, is_reserved_name(p.username, lowered), "Reserved name"@);
    let e2 = with_error(
        e1,
        exists|i: int| 0 <= i < p.username.len() && !is_name_char(#[trigger] p.username[i]),
        "Username must only contain a-z, 0-9 or '-'"@,
    );
    let e3 = with_error(e2, !p.email.contains('@'), ""@);
    let e4 = with_error(e3, p.password != p.password2, "Passwords do not match"@);
    with_error(e4, utf8_len(p.password) < 6, "OK can we maybe use a longer password"@)
}

/// What is wrong with what someone who signs up has entered.
pub open spec fn validation_errors(p: NewPersonView) -> Seq<Seq<char>> {
    validation_errors_given(p, lowercase(p.username))
}

/// Tests whether every character of `s` may stand in a user name.
pub fn all_name_chars(s: &str) -> (r: bool)
    ensures
        r == forall|i: int| 0 <= i < s@.len() ==> is_name_char(#[trigger] s@[i]),
{
    let bytes = s.as_bytes();
    let n = bytes.len();
    let mut i: usize = 0;
    let ghost mut k: int = 0;
    proof {
        lemma_byte_pos_split(s@, 0);
    }
    while i < n
        invariant
            n == bytes@.len(),
            bytes@ == encode_utf8(s@),
            0 <= k <= s@.len(),
            i == byte_pos(s@, k),
            i <= n,
            forall|j: int| 0 <= j < k ==> is_name_char(#[trigger] s@[j]),
        decreases n - i,
    {
        proof {
            lemma_byte_pos_split(s@, k);
            lemma_byte_pos_step(s@, k);
        }
        let b = bytes[i];
        let ok = (0x30 <= b && b <= 0x39) || (0x41 <= b && b <= 0x5a) || (0x61 <= b && b <= 0x7a)
            || b == 0x2d;
        if !ok {
            proof {
                assert(!is_name_char(s@[k]));
            }
            return false;
        }
        i = i + 1;
        proof {
            k = k + 1;
        }
    }
    proof {
        lemma_byte_pos_split(s@, k);
        if k < s@.len() {
            lemma_byte_pos_step(s@, k);
        }
    }
    true
}

impl NewPerson {
    /// What someone who signs up has entered: a user name, an e-mail address,
    /// and a password twice.
    pub fn new(username: String, email: String, password: String, password2: String) -> (p:
        NewPerson)
        ensures
            p@ == (NewPersonView {
                username: username@,
                email: email@,
                password: password@,
                password2: password2@,
            }),
    {
        NewPerson { username, email, password, password2 }
    }

    /// The user name.
    pub fn username(&self) -> (r: &str)
        ensures
            r@ == self@.username,
    {
        self.username.as_str()
    }

    /// The e-mail address.
    pub fn email(&self) -> (r: &str)
        ensures
            r@ == self@.email,
    {
        self.email.as_str()
    }

    /// The password.
    pub fn password(&self) -> (r: &str)
        ensures
            r@ == self@.password,
    {
        self.password.as_str()
    }

    /// The password as it was entered the second time.
    pub fn password2(&self) -> (r: &str)
        ensures
            r@ == self@.password2,
    {
        self.password2.as_str()
    }

    /// What is wrong with the entries, `lowered` being the lower-case form of
    /// the user name.
    pub fn validate_given(&self, lowered: &str) -> (errors: Vec<&'static str>)
        ensures
            errors.deep_view() == validation_errors_given(self@, lowered@),
    {
        let mut errors: Vec<&'static str> = Vec::new();
        let ghost e0 = Seq::<Seq<char>>::empty();
        assert(errors.deep_view() =~= e0);
        if byte_len(self.username.as_str()) > 32 || self.username.as_str().is_empty() || same_text(
            lowered,
            "www",
        ) || same_text(lowered, "proxy") {
            let ghost before = errors.deep_view();
            errors.push("Reserved name");
            assert(errors.deep_view() =~= before.push("Reserved name"@));
        }
        let ghost e1 = errors.deep_view();
        if !all_name_chars(self.username.as_str()) {
            let ghost before = errors.deep_view();
            errors.push("Username must only contain a-z, 0-9 or '-'");
            assert(errors.deep_view() =~= before.push(
                "Username must only contain a-z, 0-9 or '-'"@,
            ));
        }
        let ghost e2 = errors.deep_view();
        proof {
            lemma_at_sign();
        }
        if !contains_ascii(self.email.as_str(), 0x40) {
            let ghost before = errors.deep_view();
            errors.push("");
            assert(errors.deep_view() =~= before.push(""@));
        }
        let ghost e3 = errors.deep_view();
        if !same_text(self.password.as_str(), self.password2.as_str()) {
            let ghost before = errors.deep_view();
            errors.push("Passwords do not match");
            assert(errors.deep_view() =~= before.push("Passwords do not match"@));
        }
        let ghost e4 = errors.deep_view();
        if byte_len(self.password.as_str()) < 6 {
            let ghost before = errors.deep_view();
            errors.push("OK can we maybe use a longer password");
            assert(errors.deep_view() =~= before.push("OK can we maybe use a longer password"@));
        }
        errors
    }

    /// What is wrong with the entries: one message for each rule that is
    /// broken, in the order of the rules.
    pub fn validate(&self) -> (errors: Vec<&'static str>)
        ensures
            errors.deep_view() == validation_errors(self@),
    {
        let lowered = to_lowercase(self.username.as_str());
        self.validate_given(lowered.as_str())
    }
}

/// The character `@` is the one of the value 0x40.
proof fn lemma_at_sign()
    ensures
        0x40u8 as char == '@',
{
    lemma_char_eq(0x40u8 as char, '@');
}

impl AsRoute for Person {
    open spec fn route(&self) -> Seq<char> {
        "/person/"@ + self.username@
    }

    fn as_route(&self) -> (r: Cow<str>) {
        let mut route = String::from_str("/person/");
        route.append(self.username.as_str());
        Cow::Owned(route)
    }
}

/// What someone who registers has entered: a user name, an e-mail address,
/// and a password twice.
pub struct RegisterForm {
    pub username: String,
    pub email: String,
    pub password: String,
    pub password2: String,
}

impl View for RegisterForm {
    type V = NewPersonView;

    open spec fn view(&self) -> NewPersonView {
        NewPersonView {
            username: self.username@,
            email: self.email@,
            password: self.password@,
            password2: self.password2@,
        }
    }
}

/// What is wrong with what someone who registers has entered, `lowered`
/// being the lower-case form of the user name: one message for each rule that
/// is broken, in the order of the rules.
pub open spec fn register_errors_given(p: NewPersonView, lowered: Seq<char>) -> Seq<Seq<char>> {
    let e0 = Seq::<Seq<char>>::empty();
    let e1 = with_error(e0, is_reserved_name(p.username, lowered), "Invalid username"@);
    let e2 = with_error(
        e1,
        exists|i: int| 0 <= i < p.username.len() && !is_name_char(#[trigger] p.username[i]),
        "Username must only contain a-z characters and hyphens"@,
    );
    let e3 = with_error(e2, !p.email.contains('@'), "Email is invalid"@);
    let e4 = with_error(
        e3,
        utf8_len(p.password) < 6,
        "Please use a password at least 6 characters long. Preferably longer."@,
    );
    with_error(e4, p.password != p.password2, "Passwords do not match"@)
}

impl RegisterForm {
    /// What is wrong with the entries, `lowered` being the lower-case form of
    /// the user name.
    pub fn get_errors_given(&self, lowered: &str) -> (errors: Vec<&'static str>)
        ensures
            errors.deep_view() == register_errors_given(self@, lowered@),
    {
        let mut errors: Vec<&'static str> = Vec::new();
        assert(errors.deep_view() =~= Seq::<Seq<char>>::empty());
        if byte_len(self.username.as_str()) > 32 || self.username.as_str().is_empty() || same_text(
            lowered,
            "www",
        ) || same_text(lowered, "proxy") {
            let ghost before = errors.deep_view();
            errors.push("Invalid username");
            assert(errors.deep_view() =~= before.push("Invalid username"@));
        }
        if !all_name_chars(self.username.as_str()) {
            let ghost before = errors.deep_view();
            errors.push("Username must only contain a-z characters and hyphens");
            assert(errors.deep_view() =~= before.push(
                "Username must only contain a-z characters and hyphens"@,
            ));
        }
        proof {
            lemma_at_sign();
        }
        if !contains_ascii(self.email.as_str(), 0x40) {
            let ghost before = errors.deep_view();
            errors.push("Email is invalid");
            assert(errors.deep_view() =~= before.push("Email is invalid"@));
        }
        if byte_len(self.password.as_str()) < 6 {
            let ghost before = errors.deep_view();
            errors.push("Please use a password at least 6 characters long. Preferably longer.");
            assert(errors.deep_view() =~= before.push(
                "Please use a password at least 6 characters long. Preferably longer."@,
            ));
        }
        if !same_text(self.password.as_str(), self.password2.as_str()) {
            let ghost before = errors.deep_view();
            errors.push("Passwords do not match");
            assert(errors.deep_view() =~= before.push("Passwords do not match"@));
        }
        errors
    }

    /// What is wrong with the entries: one message for each rule that is
    /// broken, in the order of the rules.
    pub fn get_errors(&self) -> (errors: Vec<&'static str>)
        ensures
            errors.deep_view() == register_errors_given(self@, lowercase(self@.username)),
    {
        let lowered = to_lowercase(self.username.as_str());
        self.get_errors_given(lowered.as_str())
    }
}

/// Whether `id` names who is signed in: an identifier and a user name, with
/// white space between them.
pub open spec fn is_identity(id: Seq<char>) -> bool {
    words(id).len() >= 2
}

/// The identifier and the user name of who is signed in: the first two words
/// of `id`.
pub fn parse_identity(id: String) -> (r: (String, String))
    requires
        is_identity(id@),
    ensures
        r.0@ == words(id@)[0],
        r.1@ == words(id@)[1],
{
    let (first, rest) = split_word(id.as_str());
    let (second, _) = split_word(rest);
    proof {
        lemma_trim_start_len(id@);
        lemma_word_end(trim_start(id@));
        let ws = words(id@);
        assert(ws =~= seq![first@] + words(rest@));
        assert(words(rest@) =~= ws.skip(1));
        lemma_trim_start_len(rest@);
        lemma_word_end(trim_start(rest@));
        assert(words(rest@)[0] == second@);
    }
    (String::from_str(first), String::from_str(second))
}

/// What `bcrypt::verify` makes of a password and a hash: whether the hash is
/// that of the password, or the message of its error where the hash cannot be
/// read.
pub uninterp spec fn bcrypt_verify(password: Seq<char>, hash: Seq<char>) -> Result<bool, Seq<char>>;

/// Tests a password against a hash with `bcrypt::verify`; an error is given
/// as its message. The contract claims only that the result is a function of
/// the password and the hash.
#[verifier::external_body]
pub(crate) fn verify_password(password: &str, hash: &str) -> (r: Result<bool, String>)
    ensures
        match r {
            Ok(same) => bcrypt_verify(password@, hash@) == Ok::<bool, Seq<char>>(same),
            Err(e) => bcrypt_verify(password@, hash@) == Err::<bool, Seq<char>>(e@),
        },
{
    match bcrypt::verify(password, hash) {
        Ok(same) => Ok(same),
        Err(e) => Err(e.to_string()),
    }
}

/// What someone who signs in is told where `verified` is what testing the
/// password gave: nothing where the password is right, `wrong password`
/// where it is not, and the message of the error where the test failed.
pub open spec fn login_error(verified: Result<bool, Seq<char>>) -> Option<Seq<char>> {
    match verified {
        Ok(true) => None,
        Ok(false) => Some("wrong password"@),
        Err(message) => Some(message),
    }
}

/// Whether someone may sign in, `verified` being what testing the password
/// gave; an error tells why not.
pub fn signed_in(verified: Result<bool, String>) -> (r: Result<(), String>)
    ensures
        match r {
            Ok(_) => login_error(
                match verified {
                    Ok(b) => Ok(b),
                    Err(e) => Err(e@),
                },
            ) is None,
            Err(message) => login_error(
                match verified {
                    Ok(b) => Ok(b),
                    Err(e) => Err(e@),
                },
            ) == Some(message@),
        },
{
    match verified {
        Ok(true) => Ok(()),
        Ok(false) => Err(String::from_str("wrong password")),
        Err(message) => Err(message),
    }
}

impl Person {
    /// Tests `password` against the hash of the person's password; an error
    /// tells why the person may not sign in.
    pub fn check_password(&self, password: &str) -> (r: Result<(), String>)
        ensures
            match r {
                Ok(_) => login_error(bcrypt_verify(password@, self.password_hash@)) is None,
                Err(message) => login_error(bcrypt_verify(password@, self.password_hash@)) == Some(
                    message@,
                ),
            },
    {
        signed_in(verify_password(password, self.password_hash.as_str()))
    }
}

} // verus!
