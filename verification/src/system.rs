//! The shell-level pieces the engine owns: command-word classification, the
//! hashed login password and the system profile.

use vstd::prelude::*;
use vstd::string::StringSliceAdditionalSpecFns;

use sha2::Digest;

use crate::errors::Errors;
use crate::text::{
    chars_eq_str, first_token, lower, second_token, split_first_token, str_to_chars, to_lower,
};

verus! {

/// The statement kinds the shell dispatches on.
#[derive(Clone, Copy, Debug, PartialEq, Eq, Structural)]
pub enum CommandType {
    CreateTable,
    Insert,
    Select,
    Delete,
    Drop,
    Update,
    ShowTable,
    ShowDB,
    TableInfo,
    System,
}

/// The kind named by a command's first word, ignoring ASCII case.
pub open spec fn command_kind(s: Seq<char>) -> Option<CommandType> {
    let tok = lower(first_token(s));
    if tok == "create"@ {
        Some(CommandType::CreateTable)
    } else if tok == "insert"@ {
        Some(CommandType::Insert)
    } else if tok == "select"@ {
        Some(CommandType::Select)
    } else if tok == "delete"@ {
        Some(CommandType::Delete)
    } else if tok == "drop"@ {
        Some(CommandType::Drop)
    } else if tok == "update"@ {
        Some(CommandType::Update)
    } else if tok == "showtb"@ {
        Some(CommandType::ShowTable)
    } else if tok == "showdb"@ {
        Some(CommandType::ShowDB)
    } else if tok == "tableinfo"@ {
        Some(CommandType::TableInfo)
    } else if tok == "sys"@ {
        Some(CommandType::System)
    } else {
        None
    }
}

impl CommandType {
    /// Classifies a command line by its first word; an unknown word is an
    /// error, not a panic.
    pub fn new(command: String) -> (r: Result<CommandType, Errors>)
        ensures
            match r {
                Ok(ct) => command_kind(command@) == Some(ct),
                Err(e) => command_kind(command@) is None && e == Errors::ParseDelegationError,
            },
    {
        let chars = str_to_chars(command.as_str());
        let (tok, _rest) = split_first_token(&chars);
        let low = to_lower(&tok);
        if chars_eq_str(&low, "create") {
            Ok(CommandType::CreateTable)
        } else if chars_eq_str(&low, "insert") {
            Ok(CommandType::Insert)
        } else if chars_eq_str(&low, "select") {
            Ok(CommandType::Select)
        } else if chars_eq_str(&low, "delete") {
            Ok(CommandType::Delete)
        } else if chars_eq_str(&low, "drop") {
            Ok(CommandType::Drop)
        } else if chars_eq_str(&low, "update") {
            Ok(CommandType::Update)
        } else if chars_eq_str(&low, "showtb") {
            Ok(CommandType::ShowTable)
        } else if chars_eq_str(&low, "showdb") {
            Ok(CommandType::ShowDB)
        } else if chars_eq_str(&low, "tableinfo") {
            Ok(CommandType::TableInfo)
        } else if chars_eq_str(&low, "sys") {
            Ok(CommandType::System)
        } else {
            Err(Errors::ParseDelegationError)
        }
    }
}

/// The system-level commands, named by the second word of a `sys` line.
#[derive(Clone, Copy, Debug, PartialEq, Eq, Structural)]
pub enum SysCommand {
    CreateDatabase,
    UseDatabase,
    DropDatabase,
    ShowDatabases,
    ChangePassword,
    SysInfo,
}

/// The kind named by a command's second word, ignoring ASCII case.
pub open spec fn sys_command_kind(s: Seq<char>) -> Option<SysCommand> {
    match second_token(s) {
        None => None,
        Some(t) => {
            let tok = lower(t);
            if tok == "createdb"@ {
                Some(SysCommand::CreateDatabase)
            } else if tok == "usedb"@ {
                Some(SysCommand::UseDatabase)
            } else if tok == "dropdb"@ {
                Some(SysCommand::DropDatabase)
            } else if tok == "showdb"@ {
                Some(SysCommand::ShowDatabases)
            } else if tok == "changepwd"@ {
                Some(SysCommand::ChangePassword)
            } else if tok == "showsys"@ {
                Some(SysCommand::SysInfo)
            } else {
                None
            }
        },
    }
}

impl SysCommand {
    /// Classifies a system command line by its second word; a missing or
    /// unknown word is an error, not a panic.
    pub fn new(command: String) -> (r: Result<SysCommand, Errors>)
        ensures
            match r {
                Ok(sc) => sys_command_kind(command@) == Some(sc),
                Err(e) => sys_command_kind(command@) is None && e == Errors::ParseDelegationError,
            },
    {
        let chars = str_to_chars(command.as_str());
        let (_first, rest) = split_first_token(&chars);
        let rest = match rest {
            Some(r) => r,
            None => {
                return Err(Errors::ParseDelegationError);
            },
        };
        let (tok, _rest2) = split_first_token(&rest);
        let low = to_lower(&tok);
        if chars_eq_str(&low, "createdb") {
            Ok(SysCommand::CreateDatabase)
        } else if chars_eq_str(&low, "usedb") {
            Ok(SysCommand::UseDatabase)
        } else if chars_eq_str(&low, "dropdb") {
            Ok(SysCommand::DropDatabase)
        } else if chars_eq_str(&low, "showdb") {
            Ok(SysCommand::ShowDatabases)
        } else if chars_eq_str(&low, "changepwd") {
            Ok(SysCommand::ChangePassword)
        } else if chars_eq_str(&low, "showsys") {
            Ok(SysCommand::SysInfo)
        } else {
            Err(Errors::ParseDelegationError)
        }
    }
}

/// The SHA-256 digest of a byte string; it depends on the bytes alone.
pub uninterp spec fn sha256_of(bytes: Seq<u8>) -> Seq<u8>;

/// Relies on sha2's `Sha256`: hashing a byte string gives its 32-byte
/// SHA-256 digest, a function of the bytes alone.
#[verifier::external_body]
fn sha256_digest(s: &str) -> (r: Vec<u8>)
    ensures
        r@ == sha256_of(s.spec_bytes()),
        r@.len() == 32,
{
    let mut hasher = sha2::Sha256::new();
    hasher.update(s.as_bytes());
    hasher.finalize().to_vec()
}

/// The lowercase hexadecimal digit of a value below sixteen.
pub open spec fn hex_digit(n: nat) -> char {
    seq!['0', '1', '2', '3', '4', '5', '6', '7', '8', '9', 'a', 'b', 'c', 'd', 'e', 'f'][n as int]
}

/// Two lowercase hexadecimal digits per byte, high nibble first.
pub open spec fn hex_of(bytes: Seq<u8>) -> Seq<char>
    decreases bytes.len(),
{
    if bytes.len() == 0 {
        Seq::<char>::empty()
    } else {
        seq![hex_digit((bytes[0] / 16) as nat), hex_digit((bytes[0] % 16) as nat)] + hex_of(
            bytes.skip(1),
        )
    }
}

/// Relies on hex::encode: two lowercase hexadecimal digits for each byte,
/// high nibble first.
#[verifier::external_body]
fn hex_encode(b: &Vec<u8>) -> (r: String)
    ensures
        r@ == hex_of(b@),
{
    hex::encode(b)
}

/// The stored form of a password: the lowercase hex of the SHA-256 digest
/// of its UTF-8 bytes.
pub open spec fn pwd_hash(s: Seq<char>) -> Seq<char> {
    hex_of(sha256_of(vstd::utf8::encode_utf8(s)))
}

/// A login password, held only as its hash.
pub struct Password {
    hashed_password: String,
}

impl View for Password {
    type V = Seq<char>;

    closed spec fn view(&self) -> Seq<char> {
        self.hashed_password@
    }
}

impl Password {
    /// Stores the hash of a fresh password.
    pub fn new(password: &str) -> (r: Password)
        ensures
            r@ == pwd_hash(password@),
    {
        let hashed_password = Password::hash_password(password);
        Password { hashed_password }
    }

    /// Re-builds a password value from an already-stored hash.
    pub fn from_hashed(hashed_password: String) -> (r: Password)
        ensures
            r@ == hashed_password@,
    {
        Password { hashed_password }
    }

    /// The stored hash, for persisting the profile.
    pub fn hashed(&self) -> (r: &String)
        ensures
            r@ == self@,
    {
        &self.hashed_password
    }

    /// Replaces the stored hash with that of a new password.
    pub fn set_password(&mut self, new_password: &str)
        ensures
            final(self)@ == pwd_hash(new_password@),
    {
        self.hashed_password = Password::hash_password(new_password);
    }

    /// Whether the password hashes to the stored hash.
    pub fn check_password(&self, password: &str) -> (r: bool)
        ensures
            r == (pwd_hash(password@) == self@),
    {
        let h = Password::hash_password(password);
        let r = h.eq(&self.hashed_password);
        r
    }

    /// The stored form of a password.
    fn hash_password(password: &str) -> (r: String)
        ensures
            r@ == pwd_hash(password@),
    {
        let digest = sha256_digest(password);
        hex_encode(&digest)
    }
}

/// The system profile: its name, the login user and the hashed password.
pub struct DbSystem {
    sys_name: String,
    sys_username: String,
    sys_password: Password,
}

/// The mathematical content of a [`DbSystem`].
#[verifier::ext_equal]
pub ghost struct SysV {
    pub name: Seq<char>,
    pub username: Seq<char>,
    pub password: Seq<char>,
}

impl View for DbSystem {
    type V = SysV;

    closed spec fn view(&self) -> SysV {
        SysV {
            name: self.sys_name@,
            username: self.sys_username@,
            password: self.sys_password@,
        }
    }
}

impl DbSystem {
    /// A fresh, empty profile; the shell loads the stored one over it.
    pub fn new() -> (r: DbSystem)
        ensures
            r@.name == Seq::<char>::empty(),
            r@.username == Seq::<char>::empty(),
            r@.password == Seq::<char>::empty(),
    {
        DbSystem {
            sys_name: String::new(),
            sys_username: String::new(),
            sys_password: Password::from_hashed(String::new()),
        }
    }

    /// A profile from stored parts.
    pub fn from_parts(sys_name: String, sys_username: String, sys_password: Password) -> (r:
        DbSystem)
        ensures
            r@.name == sys_name@,
            r@.username == sys_username@,
            r@.password == sys_password@,
    {
        DbSystem { sys_name, sys_username, sys_password }
    }

    /// The profile's name.
    pub fn sys_name(&self) -> (r: &String)
        ensures
            r@ == self@.name,
    {
        &self.sys_name
    }

    /// The login user.
    pub fn sys_username(&self) -> (r: &String)
        ensures
            r@ == self@.username,
    {
        &self.sys_username
    }

    /// The stored password hash.
    pub fn password_hash(&self) -> (r: &String)
        ensures
            r@ == self@.password,
    {
        self.sys_password.hashed()
    }

    /// A login succeeds exactly when the user matches and the password
    /// hashes to the stored hash.
    pub fn login(&self, username: String, password: String) -> (r: bool)
        ensures
            r == (username@ == self@.username && pwd_hash(password@) == self@.password),
    {
        let mut status = true;
        status = status && username.eq(&self.sys_username);
        status = status && self.sys_password.check_password(password.as_str());
        status
    }
}

} // verus!
