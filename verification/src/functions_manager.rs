//! The functions a program can call: its own and the built-in ones.
use vstd::prelude::*;
use vstd::string::StringExecFns;

use crate::ast::{FunctionDeclaration, Node, Program};
use crate::parser::spec_is_std_function_name;
use crate::position::position_text;
use crate::std_functions::{get_std_functions, StdFunction};

verus! {

pub struct FunctionManagerIssue {
    pub message: String,
}

/// The user functions of a program and the built-in functions.
pub struct FunctionsManager<'a> {
    pub functions: &'a Vec<Node<FunctionDeclaration>>,
    pub std_functions: Vec<StdFunction>,
}

pub open spec fn function_redeclaration_text(name: Seq<char>, p: crate::position::Position) -> Seq<char> {
    "Redeclaration of function '"@ + name + "'.\nAt "@ + position_text(p) + ".\n"@
}

impl<'a> FunctionsManager<'a> {
    /// The functions of `program`; a user function that takes the name of a
    /// built-in one is refused, the first such one reported.
    pub fn new(program: &'a Program) -> (r: Result<Self, FunctionManagerIssue>)
        ensures
            (forall|i: int|
                0 <= i < program.functions@.len() ==> !spec_is_std_function_name(
                    #[trigger] program.functions@[i].value.identifier.value@,
                )) <==> r is Ok,
            r matches Ok(m) ==> m.functions == &program.functions && m.std_functions@ == seq![
                StdFunction::Print,
                StdFunction::Input,
                StdFunction::Modulo,
            ],
            r matches Err(e) ==> exists|i: int|
                0 <= i < program.functions@.len() && spec_is_std_function_name(
                    #[trigger] program.functions@[i].value.identifier.value@,
                ) && e.message@ == function_redeclaration_text(
                    program.functions@[i].value.identifier.value@,
                    program.functions@[i].position,
                ) && forall|j: int| 0 <= j < i ==> !spec_is_std_function_name(
                    #[trigger] program.functions@[j].value.identifier.value@,
                ),
    {
        let std_functions = get_std_functions();
        let mut i: usize = 0;
        while i < program.functions.len()
            invariant
                i <= program.functions@.len(),
                forall|j: int| 0 <= j < i ==> !spec_is_std_function_name(#[trigger] program.functions@[j].value.identifier.value@),
            decreases program.functions@.len() - i,
        {
            let statement = &program.functions[i];
            let function_name = &statement.value.identifier.value;
            if crate::parser::is_std_function_name(function_name.as_str()) {
                let mut s = String::from_str("Redeclaration of function '");
                s.append(function_name.as_str());
                s.append("'.\nAt ");
                s.append(statement.position.debug_text().as_str());
                s.append(".\n");
                return Err(FunctionManagerIssue { message: s });
            }
            i = i + 1;
        }
        Ok(FunctionsManager { functions: &program.functions, std_functions })
    }

    /// The user function called `name`, if there is one.
    pub fn get(&self, name: &str) -> (r: Option<&'a Node<FunctionDeclaration>>)
        ensures
            r matches Some(f) ==> exists|i: int|
                0 <= i < self.functions@.len() && *f == #[trigger] self.functions@[i] && f.value.identifier.value@ == name@
                    && forall|j: int| 0 <= j < i ==> #[trigger] self.functions@[j].value.identifier.value@ != name@,
            r is None ==> forall|i: int| 0 <= i < self.functions@.len() ==> #[trigger] self.functions@[i].value.identifier.value@ != name@,
    {
        let functions = self.functions;
        let mut i: usize = 0;
        while i < functions.len()
            invariant
                functions == self.functions,
                i <= functions@.len(),
                forall|j: int| 0 <= j < i ==> #[trigger] functions@[j].value.identifier.value@ != name@,
            decreases functions@.len() - i,
        {
            if crate::text::str_equal(functions[i].value.identifier.value.as_str(), name) {
                return Some(&functions[i]);
            }
            i = i + 1;
        }
        None
    }
}

} // verus!
