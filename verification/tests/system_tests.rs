use sha2::Digest;

use simple_db::errors::Errors;
use simple_db::system::{CommandType, DbSystem, Password, SysCommand};

fn s(x: &str) -> String {
    String::from(x)
}

#[test]
fn command_words_classify() {
    assert_eq!(
        CommandType::new(s("CREATE TABLE t (id int);")),
        Ok(CommandType::CreateTable)
    );
    assert_eq!(CommandType::new(s("insert into t ...")), Ok(CommandType::Insert));
    assert_eq!(CommandType::new(s("select * from t")), Ok(CommandType::Select));
    assert_eq!(CommandType::new(s("DELETE from t")), Ok(CommandType::Delete));
    assert_eq!(CommandType::new(s("drop table t")), Ok(CommandType::Drop));
    assert_eq!(CommandType::new(s("update t set a=1")), Ok(CommandType::Update));
    assert_eq!(CommandType::new(s("showtb t")), Ok(CommandType::ShowTable));
    assert_eq!(CommandType::new(s("showdb")), Ok(CommandType::ShowDB));
    assert_eq!(CommandType::new(s("tableinfo t")), Ok(CommandType::TableInfo));
    assert_eq!(CommandType::new(s("sys showdb")), Ok(CommandType::System));
    assert_eq!(
        CommandType::new(s("frobnicate t")),
        Err(Errors::ParseDelegationError)
    );
}

#[test]
fn sys_command_words_classify() {
    assert_eq!(
        SysCommand::new(s("sys createdb demo")),
        Ok(SysCommand::CreateDatabase)
    );
    assert_eq!(SysCommand::new(s("sys usedb demo")), Ok(SysCommand::UseDatabase));
    assert_eq!(SysCommand::new(s("sys dropdb demo")), Ok(SysCommand::DropDatabase));
    assert_eq!(SysCommand::new(s("sys showdb")), Ok(SysCommand::ShowDatabases));
    assert_eq!(SysCommand::new(s("sys changepwd x")), Ok(SysCommand::ChangePassword));
    assert_eq!(SysCommand::new(s("sys showsys")), Ok(SysCommand::SysInfo));
    assert_eq!(SysCommand::new(s("sys")), Err(Errors::ParseDelegationError));
    assert_eq!(SysCommand::new(s("sys nope")), Err(Errors::ParseDelegationError));
}

#[test]
fn password_hash_matches_reference_digest() {
    // cross-check the stored hash against the hashing crates used directly
    let p = Password::new("abc");
    let mut hasher = sha2::Sha256::new();
    hasher.update("abc".as_bytes());
    let expected = hex::encode(hasher.finalize());
    assert_eq!(p.hashed(), &expected);
    assert_eq!(
        p.hashed(),
        "ba7816bf8f01cfea414140de5dae2223b00361a396177a9cb410ff61f20015ad"
    );
}

#[test]
fn password_checks_and_updates() {
    let mut p = Password::new("secret");
    assert!(p.check_password("secret"));
    assert!(!p.check_password("Secret"));
    p.set_password("other");
    assert!(!p.check_password("secret"));
    assert!(p.check_password("other"));
}

#[test]
fn login_needs_both_user_and_password() {
    let sys = DbSystem::from_parts(s("local"), s("root"), Password::new("pw"));
    assert_eq!(sys.sys_name(), &s("local"));
    assert_eq!(sys.sys_username(), &s("root"));
    assert!(sys.login(s("root"), s("pw")));
    assert!(!sys.login(s("root"), s("wrong")));
    assert!(!sys.login(s("admin"), s("pw")));
    let blank = DbSystem::new();
    assert_eq!(blank.sys_username(), &s(""));
}
