//! Checks on the final state of an evaluation, as a test of a task states
//! them.
use vstd::prelude::*;
use crate::batch::file_name_of;
use crate::text::rfind;

verus! {

/// Where the compilation of a source file stands.
#[derive(Clone, Copy, Debug, PartialEq, Eq, Structural)]
pub enum CompilationStatus {
    Pending,
    Running,
    Done,
    Failed,
    Skipped,
}

/// The parts of the final state of an evaluation that the checks read.
#[derive(Clone, Debug)]
pub struct UIState {
    pub memory_limit: Option<u64>,
    /// The compilations, by path of the source file.
    pub compilations: Vec<(String, CompilationStatus)>,
}

/// The final state of an evaluation that did not fail.
#[derive(Clone, Debug)]
pub struct TestInterfaceSuccessful {
    pub state: UIState,
}

/// A check that did not hold.
#[derive(Clone, Debug, PartialEq, Eq)]
pub enum CheckFailure {
    /// The task has no memory limit, or another one.
    WrongMemoryLimit(Option<u64>),
    /// The source was not compiled.
    CompilationMissing(String),
    /// The source was compiled with another outcome.
    WrongCompilation(String, CompilationStatus),
}

/// The first compilation whose source has the file name `name`.
pub open spec fn compilation_of(cs: Seq<(String, CompilationStatus)>, name: Seq<char>, i: int) -> bool {
    &&& 0 <= i < cs.len()
    &&& file_name_of(cs[i].0@) == name
    &&& forall|j: int| 0 <= j < i ==> file_name_of(#[trigger] cs[j].0@) != name
}

pub open spec fn find_compilation(cs: Seq<(String, CompilationStatus)>, name: Seq<char>) -> Option<CompilationStatus> {
    if exists|i: int| compilation_of(cs, name, i) {
        Some(cs[choose|i: int| compilation_of(cs, name, i)].1)
    } else {
        None
    }
}

fn file_name_str(p: &str) -> (r: &str)
    ensures
        r@ == file_name_of(p@),
{
    proof {
        reveal_strlit("/");
    }
    assert("/"@ == seq!['/']);
    match rfind(p, "/") {
        Some(i) => {
            let n = p.unicode_len();
            p.substring_char(i + 1, n)
        },
        None => p,
    }
}

impl TestInterfaceSuccessful {
    /// The compilation of the source whose file name is `name`.
    pub fn get_path_key(&self, name: &str) -> (r: Option<CompilationStatus>)
        ensures
            r == find_compilation(self.state.compilations@, name@),
    {
        let cs = &self.state.compilations;
        let mut i: usize = 0;
        while i < cs.len()
            invariant
                0 <= i <= cs@.len(),
                cs@ == self.state.compilations@,
                forall|j: int| 0 <= j < i ==> file_name_of(#[trigger] cs@[j].0@) != name@,
            decreases cs@.len() - i,
        {
            if crate::text::same_text(file_name_str(cs[i].0.as_str()), name) {
                proof {
                    assert(compilation_of(cs@, name@, i as int));
                    assert forall|q: int| compilation_of(cs@, name@, q) implies q == i by {
                        if q < i {
                            assert(file_name_of(cs@[q].0@) != name@);
                        } else if q > i {
                            assert(file_name_of(cs@[i as int].0@) != name@);
                        }
                    }
                    let c = choose|q: int| compilation_of(cs@, name@, q);
                    assert(c == i);
                    assert(find_compilation(cs@, name@) == Some(cs@[i as int].1));
                }
                return Some(cs[i].1);
            }
            i = i + 1;
        }
        None
    }

    /// Holds when the task has memory limit `memory_limit`.
    pub fn memory_limit(self, memory_limit: u64) -> (r: Result<Self, CheckFailure>)
        ensures
            r is Ok <==> self.state.memory_limit == Some(memory_limit),
            r matches Ok(t) ==> t == self,
    {
        if self.state.memory_limit == Some(memory_limit) {
            Ok(self)
        } else {
            Err(CheckFailure::WrongMemoryLimit(self.state.memory_limit))
        }
    }

    fn compiled_as(self, source: String, want: CompilationStatus) -> (r: Result<Self, CheckFailure>)
        ensures
            r is Ok <==> find_compilation(self.state.compilations@, source@) == Some(want),
            r matches Ok(t) ==> t == self,
    {
        match self.get_path_key(source.as_str()) {
            None => Err(CheckFailure::CompilationMissing(source)),
            Some(c) => {
                if c == want {
                    Ok(self)
                } else {
                    Err(CheckFailure::WrongCompilation(source, c))
                }
            },
        }
    }

    /// Holds when the source named `source` compiled successfully.
    pub fn must_compile(self, source: String) -> (r: Result<Self, CheckFailure>)
        ensures
            r is Ok <==> find_compilation(self.state.compilations@, source@) == Some(CompilationStatus::Done),
            r matches Ok(t) ==> t == self,
    {
        self.compiled_as(source, CompilationStatus::Done)
    }

    /// Holds when the source named `source` failed to compile.
    pub fn must_not_compile(self, source: String) -> (r: Result<Self, CheckFailure>)
        ensures
            r is Ok <==> find_compilation(self.state.compilations@, source@) == Some(CompilationStatus::Failed),
            r matches Ok(t) ==> t == self,
    {
        self.compiled_as(source, CompilationStatus::Failed)
    }

    /// Holds when the source named `source` was not compiled at all.
    pub fn not_compiled(self, source: String) -> (r: Result<Self, CheckFailure>)
        ensures
            r is Ok <==> find_compilation(self.state.compilations@, source@) is None,
            r matches Ok(t) ==> t == self,
    {
        match self.get_path_key(source.as_str()) {
            None => Ok(self),
            Some(c) => Err(CheckFailure::WrongCompilation(source, c)),
        }
    }
}

} // verus!
