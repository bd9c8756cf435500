use semitone::session::{Reply, Session, SessionError, SmtCommand};
use semitone::smt::{SmtConstant, SmtTerm};

fn num(n: u64) -> SmtTerm {
    SmtTerm::Constant(SmtConstant::Numeral(n))
}

fn name(s: &str) -> SmtTerm {
    SmtTerm::Identifier(s.to_string())
}

fn app(op: &str, args: Vec<SmtTerm>) -> SmtTerm {
    SmtTerm::Application(op.to_string(), args)
}

fn declare(n: &str, sort: &str) -> SmtCommand {
    SmtCommand::DeclareFun(n.to_string(), 0, sort.to_string())
}

#[test]
fn a_refused_assertion_answers_unsat() {
    let mut s = Session::new();
    assert_eq!(s.execute_command(&SmtCommand::SetLogic("QF_LRA".to_string())), Ok(Reply::Nothing));
    assert_eq!(s.execute_command(&declare("x", "Real")), Ok(Reply::Nothing));
    assert_eq!(s.execute_command(&SmtCommand::CheckSat), Ok(Reply::Search));
    let le = SmtCommand::Assert(app("<=", vec![name("x"), num(3)]));
    assert_eq!(s.execute_command(&le), Ok(Reply::Nothing));
    assert!(!s.is_unsat);
    let gt = SmtCommand::Assert(app(">", vec![name("x"), num(5)]));
    assert_eq!(s.execute_command(&gt), Ok(Reply::Nothing));
    assert!(s.is_unsat);
    assert_eq!(s.execute_command(&SmtCommand::CheckSat), Ok(Reply::Unsat));
    // later assertions are skipped
    let bad = SmtCommand::Assert(name("nowhere"));
    assert_eq!(s.execute_command(&bad), Ok(Reply::Nothing));
}

#[test]
fn declarations_extend_the_scopes() {
    let mut s = Session::new();
    assert_eq!(s.execute_command(&SmtCommand::SetLogic("QF_NIA".to_string())), Ok(Reply::Warning));
    assert_eq!(s.execute_command(&declare("p", "Bool")), Ok(Reply::Nothing));
    assert_eq!(s.execute_command(&declare("n", "Int")), Ok(Reply::Nothing));
    assert_eq!(s.execute_command(&SmtCommand::DeclareSort("U".to_string(), 0)), Ok(Reply::Nothing));
    assert_eq!(s.execute_command(&declare("a", "U")), Ok(Reply::Nothing));
    assert_eq!(
        s.execute_command(&SmtCommand::DeclareFun("f".to_string(), 1, "U".to_string())),
        Ok(Reply::Nothing)
    );
    assert_eq!(s.bools.len(), 1);
    assert_eq!(s.ariths.len(), 1);
    assert_eq!(s.eufs, vec!["a".to_string(), "f".to_string()]);
    assert_eq!(
        s.execute_command(&SmtCommand::DeclareSort("L".to_string(), 1)),
        Err(SessionError::ParametricSort)
    );
    assert_eq!(s.execute_command(&declare("b", "Foo")), Err(SessionError::UnsupportedSort));
    assert_eq!(s.execute_command(&SmtCommand::Push(1)), Err(SessionError::Backtracking));
    assert_eq!(s.execute_command(&SmtCommand::Other), Ok(Reply::Nothing));
    let p_and_bound = SmtCommand::Assert(app("and", vec![name("p"), app(">=", vec![name("n"), num(2)])]));
    assert_eq!(s.execute_command(&p_and_bound), Ok(Reply::Nothing));
    assert!(!s.is_unsat);
}
