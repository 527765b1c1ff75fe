use just_bash_rs::env::Env;

#[test]
fn test_expand() {
    let mut env = Env::new();
    env.set("FOO", "bar");
    assert_eq!(env.expand("$FOO"), "bar");
    assert_eq!(env.expand("${FOO}"), "bar");
    assert_eq!(env.expand("hello $FOO"), "hello bar");
    assert_eq!(env.expand("$MISSING"), "");
    assert_eq!(env.expand("$$"), "$");
}

#[test]
fn test_cwd() {
    let mut env = Env::new();
    assert_eq!(env.cwd(), "/");
    env.set_cwd("/home/user");
    assert_eq!(env.cwd(), "/home/user");
    assert_eq!(env.get("PWD"), Some("/home/user"));
}
