//! A session of the input language: declarations extend the scopes of
//! names, assertions are translated and asserted, and a satisfiability
//! check is answered at once when an assertion was refused, else handed to
//! the search.
use crate::ast::{ArithExpr, BoolExpr, BoolVar, IntVar, RealVar};
use crate::engine::Engine;
use crate::formula_checks::{assert_term, term_asserted, TermError};
use crate::formulas::bool_scope_ok;
use crate::smt::{scope_ok, SmtTerm};
use vstd::prelude::*;

verus! {

/// A command of the input language, as the reader hands it over.
pub enum SmtCommand {
    /// `set-logic`.
    SetLogic(String),
    /// `declare-sort`, with the sort's arity.
    DeclareSort(String, u64),
    /// `declare-fun` (and `declare-const`), with the number of parameters
    /// and the result sort.
    DeclareFun(String, usize, String),
    /// `assert`.
    Assert(SmtTerm),
    /// `check-sat`.
    CheckSat,
    /// `push`, with the number of levels.
    Push(u64),
    /// `pop`, with the number of levels.
    Pop(u64),
    /// Any other command (`set-info`, `get-model`, ...).
    Other,
}

/// What the caller has to do after a command.
#[derive(Clone, Copy, Debug, PartialEq, Eq, Structural)]
pub enum Reply {
    /// Nothing.
    Nothing,
    /// Warn that the logic may not be fully supported.
    Warning,
    /// Answer `unsat`: an assertion was refused.
    Unsat,
    /// Run the search and answer what it finds.
    Search,
}

/// Why a command failed.
#[derive(Clone, Copy, Debug, PartialEq, Eq, Structural)]
pub enum SessionError {
    /// A sort with parameters.
    ParametricSort,
    /// A constant of a sort that was not declared.
    UnsupportedSort,
    /// An assertion that could not be asserted.
    Term(TermError),
    /// `push` and `pop`, which need the search's backtracking.
    Backtracking,
    /// Too many variables.
    Overflow,
}

/// The state of a session.
pub struct Session {
    pub engine: Engine,
    pub bools: Vec<(String, BoolExpr)>,
    pub ariths: Vec<(String, ArithExpr)>,
    pub eufs: Vec<String>,
    pub sorts: Vec<String>,
    pub is_unsat: bool,
}

/// The logics that the solver is meant for.
pub open spec fn supported_logic(l: Seq<char>) -> bool {
    l == "QF_LRA"@ || l == "QF_LIA"@ || l == "QF_UF"@ || l == "QF_UFLRA"@ || l == "QF_UFLIA"@ || l == "QF_UFLIRA"@
}

/// Whether `s` is `lit`.
fn is_word(s: &String, lit: &str) -> (r: bool)
    ensures
        r == (s@ == lit@),
{
    let l: String = lit.to_owned();
    *s == l
}

/// Whether `name` is one of `names`.
fn contains_name(names: &Vec<String>, name: &String) -> (r: bool)
    ensures
        r == exists|i: int| 0 <= i < names@.len() && (#[trigger] names@[i])@ == name@,
{
    let mut i: usize = 0;
    while i < names.len()
        invariant
            i <= names.len(),
            forall|j: int| 0 <= j < i ==> (#[trigger] names@[j])@ != name@,
        decreases names.len() - i,
    {
        if names[i] == *name {
            return true;
        }
        i += 1;
    }
    false
}

impl Session {
    pub open spec fn wf(self) -> bool {
        self.engine.wf() && bool_scope_ok(self.bools@) && scope_ok(self.ariths@)
    }

    /// A session with nothing declared or asserted.
    pub fn new() -> (r: Session)
        ensures
            r.wf(),
            r.bools@.len() == 0,
            r.ariths@.len() == 0,
            r.eufs@.len() == 0,
            r.sorts@.len() == 0,
            !r.is_unsat,
    {
        Session {
            engine: Engine::new(),
            bools: Vec::new(),
            ariths: Vec::new(),
            eufs: Vec::new(),
            sorts: Vec::new(),
            is_unsat: false,
        }
    }

    /// Declares `name` of sort `sort`, with `params` parameters.
    fn declare_fun(&mut self, name: &String, params: usize, sort: &String) -> (r: Result<Reply, SessionError>)
        requires
            old(self).wf(),
        ensures
            final(self).wf(),
            final(self).is_unsat == old(self).is_unsat,
            final(self).sorts == old(self).sorts,
            r is Err ==> *final(self) == *old(self),
            r is Ok ==> r == Ok::<Reply, SessionError>(Reply::Nothing),
            params > 0 ==> r is Ok && final(self).eufs@ == old(self).eufs@.push(*name) && final(self).bools
                == old(self).bools && final(self).ariths == old(self).ariths && final(self).engine == old(self).engine,
            params == 0 && sort@ == "Bool"@ ==> (r == Err::<Reply, SessionError>(SessionError::Overflow)
                <==> old(self).engine.next_var == usize::MAX) && (r is Ok ==> final(self).bools@ == old(self).bools@.push(
                (*name, BoolExpr::Var(BoolVar(old(self).engine.next_var as usize))),
            ) && final(self).ariths == old(self).ariths && final(self).eufs == old(self).eufs
                && final(self).engine.next_var == old(self).engine.next_var + 1 && final(self).engine.lra
                == old(self).engine.lra && final(self).engine.clauses == old(self).engine.clauses),
            params == 0 && (sort@ == "Real"@ || sort@ == "Int"@) ==> (r == Err::<Reply, SessionError>(
                SessionError::Overflow,
            ) <==> old(self).engine.lra.num_vars() == usize::MAX) && (r is Ok ==> final(self).ariths@
                == old(self).ariths@.push(
                (
                    *name,
                    if sort@ == "Real"@ {
                        ArithExpr::RealVar(RealVar(old(self).engine.lra.num_vars() as usize))
                    } else {
                        ArithExpr::IntVar(IntVar(old(self).engine.lra.num_vars() as usize))
                    },
                ),
            ) && final(self).bools == old(self).bools && final(self).eufs == old(self).eufs
                && final(self).engine.lra.num_vars() == old(self).engine.lra.num_vars() + 1
                && final(self).engine.next_var == old(self).engine.next_var && final(self).engine.clauses
                == old(self).engine.clauses),
            params == 0 && !(sort@ == "Bool"@ || sort@ == "Real"@ || sort@ == "Int"@) ==> if exists|i: int|
                0 <= i < old(self).sorts@.len() && (#[trigger] old(self).sorts@[i])@ == sort@ {
                r is Ok && final(self).eufs@ == old(self).eufs@.push(*name) && final(self).bools == old(self).bools
                    && final(self).ariths == old(self).ariths && final(self).engine == old(self).engine
            } else {
                r == Err::<Reply, SessionError>(SessionError::UnsupportedSort)
            },
    {
        proof {
            reveal_strlit("Bool");
            reveal_strlit("Real");
            reveal_strlit("Int");
            assert("Bool"@ != "Real"@) by {
                assert("Bool"@[0] == 'B');
                assert("Real"@[0] == 'R');
            }
            assert("Bool"@ != "Int"@) by {
                assert("Bool"@.len() == 4);
                assert("Int"@.len() == 3);
            }
        }
        if params > 0 {
            self.eufs.push(name.clone());
            return Ok(Reply::Nothing);
        }
        if is_word(sort, "Bool") {
            if self.engine.next_var == usize::MAX {
                return Err(SessionError::Overflow);
            }
            let v = self.engine.new_bool_var();
            self.bools.push((name.clone(), BoolExpr::Var(v)));
            proof {
                assert forall|i: int| 0 <= i < self.bools@.len() implies (#[trigger] self.bools@[i]).1@ is Var by {
                    if i < self.bools@.len() - 1 {
                        assert(self.bools@[i] == old(self).bools@[i]);
                    }
                }
            }
            return Ok(Reply::Nothing);
        }
        let is_real = is_word(sort, "Real");
        if is_real || is_word(sort, "Int") {
            if self.engine.lra.num_vars_exec() == usize::MAX {
                return Err(SessionError::Overflow);
            }
            let e = if is_real {
                ArithExpr::RealVar(RealVar(self.engine.lra.mk_real()))
            } else {
                ArithExpr::IntVar(IntVar(self.engine.lra.mk_int()))
            };
            self.ariths.push((name.clone(), e));
            proof {
                assert forall|i: int| 0 <= i < self.ariths@.len() implies (#[trigger] self.ariths@[i]).1@ is IntVar
                    || self.ariths@[i].1@ is RealVar by {
                    if i < self.ariths@.len() - 1 {
                        assert(self.ariths@[i] == old(self).ariths@[i]);
                    }
                }
            }
            return Ok(Reply::Nothing);
        }
        if contains_name(&self.sorts, sort) {
            self.eufs.push(name.clone());
            return Ok(Reply::Nothing);
        }
        Err(SessionError::UnsupportedSort)
    }

    /// Executes one command.
    pub fn execute_command(&mut self, cmd: &SmtCommand) -> (r: Result<Reply, SessionError>)
        requires
            old(self).wf(),
        ensures
            final(self).wf(),
            cmd matches SmtCommand::SetLogic(l) ==> *final(self) == *old(self) && r == Ok::<Reply, SessionError>(
                if supported_logic(l@) {
                    Reply::Nothing
                } else {
                    Reply::Warning
                },
            ),
            cmd matches SmtCommand::DeclareSort(name, arity) ==> if arity != 0 {
                r == Err::<Reply, SessionError>(SessionError::ParametricSort) && *final(self) == *old(self)
            } else {
                r == Ok::<Reply, SessionError>(Reply::Nothing) && final(self).sorts@ == old(self).sorts@.push(*name)
                    && final(self).engine == old(self).engine && final(self).bools == old(self).bools
                    && final(self).ariths == old(self).ariths && final(self).eufs == old(self).eufs
                    && final(self).is_unsat == old(self).is_unsat
            },
            cmd matches SmtCommand::DeclareFun(_, _, _) ==> final(self).is_unsat == old(self).is_unsat
                && final(self).sorts == old(self).sorts && (r is Err ==> *final(self) == *old(self)),
            cmd matches SmtCommand::Assert(t) ==> if old(self).is_unsat {
                r == Ok::<Reply, SessionError>(Reply::Nothing) && *final(self) == *old(self)
            } else {
                &&& final(self).bools == old(self).bools
                &&& final(self).ariths == old(self).ariths
                &&& final(self).eufs == old(self).eufs
                &&& final(self).sorts == old(self).sorts
                &&& r is Ok ==> r == Ok::<Reply, SessionError>(Reply::Nothing)
                &&& r is Ok && !final(self).is_unsat ==> term_asserted(
                    old(self).engine,
                    final(self).engine,
                    old(self).bools@,
                    old(self).ariths@,
                    old(self).eufs@,
                    *t,
                    true,
                )
                &&& r is Ok && final(self).is_unsat ==> term_asserted(
                    old(self).engine,
                    final(self).engine,
                    old(self).bools@,
                    old(self).ariths@,
                    old(self).eufs@,
                    *t,
                    false,
                )
                &&& r is Err ==> (r matches Err(SessionError::Term(_))) && final(self).is_unsat == old(self).is_unsat
            },
            cmd is CheckSat ==> *final(self) == *old(self) && r == Ok::<Reply, SessionError>(
                if old(self).is_unsat {
                    Reply::Unsat
                } else {
                    Reply::Search
                },
            ),
            (cmd is Push || cmd is Pop) ==> *final(self) == *old(self) && r == Err::<Reply, SessionError>(
                SessionError::Backtracking,
            ),
            cmd is Other ==> *final(self) == *old(self) && r == Ok::<Reply, SessionError>(Reply::Nothing),
    {
        match cmd {
            SmtCommand::SetLogic(l) => {
                let ok = is_word(l, "QF_LRA") || is_word(l, "QF_LIA") || is_word(l, "QF_UF") || is_word(l, "QF_UFLRA")
                    || is_word(l, "QF_UFLIA") || is_word(l, "QF_UFLIRA");
                if ok {
                    Ok(Reply::Nothing)
                } else {
                    Ok(Reply::Warning)
                }
            },
            SmtCommand::DeclareSort(name, arity) => {
                if *arity != 0 {
                    return Err(SessionError::ParametricSort);
                }
                self.sorts.push(name.clone());
                Ok(Reply::Nothing)
            },
            SmtCommand::DeclareFun(name, params, sort) => self.declare_fun(name, *params, sort),
            SmtCommand::Assert(t) => {
                if self.is_unsat {
                    return Ok(Reply::Nothing);
                }
                match assert_term(&mut self.engine, &self.bools, &self.ariths, &self.eufs, t) {
                    Ok(b) => {
                        if !b {
                            self.is_unsat = true;
                        }
                        Ok(Reply::Nothing)
                    },
                    Err(e) => Err(SessionError::Term(e)),
                }
            },
            SmtCommand::CheckSat => {
                if self.is_unsat {
                    Ok(Reply::Unsat)
                } else {
                    Ok(Reply::Search)
                }
            },
            SmtCommand::Push(_) => Err(SessionError::Backtracking),
            SmtCommand::Pop(_) => Err(SessionError::Backtracking),
            SmtCommand::Other => Ok(Reply::Nothing),
        }
    }
}

} // verus!
