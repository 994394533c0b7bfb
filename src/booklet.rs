//! A booklet: the statements of some tasks compiled into one document, and
//! the values its template is filled with.
use vstd::prelude::*;

verus! {

/// The statement of a task, as the booklet needs it.
#[derive(Clone, Debug)]
pub struct Statement {
    /// The short name of the task; its files live in a directory so named.
    pub name: String,
    /// The LaTeX packages the statement uses.
    pub packages: Vec<String>,
}

/// Configuration of a booklet, including the settings of the contest.
#[derive(Clone, Debug, Default)]
pub struct BookletConfig {
    pub language: String,
    pub show_solutions: bool,
    pub show_summary: bool,
    pub font_enc: String,
    pub input_enc: String,
    pub description: Option<String>,
    pub location: Option<String>,
    pub date: Option<String>,
    pub logo: Option<String>,
}

/// The values the `booklet.tex` template is filled with.
#[derive(Clone, Debug)]
pub struct BookletTemplate {
    pub language: String,
    pub show_solutions: String,
    pub show_summary: String,
    pub font_enc: String,
    pub input_enc: String,
    pub description: String,
    pub location: String,
    pub date: String,
    pub logo: String,
    pub packages: String,
    pub tasks: String,
}

/// The statements of some tasks, compiled together and copied to `dest`.
#[derive(Clone, Debug)]
pub struct Booklet {
    pub config: BookletConfig,
    pub statements: Vec<Statement>,
    pub dest: String,
}

/// The lines joined by newlines.
pub open spec fn joined(parts: Seq<Seq<char>>) -> Seq<char>
    decreases parts.len(),
{
    if parts.len() == 0 {
        Seq::empty()
    } else if parts.len() == 1 {
        parts[0]
    } else {
        joined(parts.drop_last()) + seq!['\n'] + parts.last()
    }
}

/// The line including the statement of task `name`.
pub open spec fn input_line(name: Seq<char>) -> Seq<char> {
    "\\input{"@ + name + "/statement.tex}"@
}

pub open spec fn opt_text(o: Option<String>) -> Seq<char> {
    match o {
        Some(s) => s@,
        None => Seq::empty(),
    }
}

/// `pkg` is in the list.
pub open spec fn listed(list: Seq<String>, pkg: Seq<char>) -> bool {
    exists|i: int| 0 <= i < list.len() && (#[trigger] list[i])@ == pkg
}

/// Every package of a statement is listed, once.
pub open spec fn lists_packages(list: Seq<String>, sts: Seq<Statement>) -> bool {
    &&& forall|i: int, j: int| 0 <= i < j < list.len() ==> (#[trigger] list[i])@ != (#[trigger] list[j])@
    &&& forall|s: int, p: int|
        0 <= s < sts.len() && 0 <= p < sts[s].packages@.len() ==> listed(list, (#[trigger] sts[s].packages@[p])@)
}

fn push_line(t: &mut String, first: bool, line: &str)
    ensures
        final(t)@ == if first { old(t)@ + line@ } else { old(t)@ + seq!['\n'] + line@ },
{
    if !first {
        t.append("\n");
        proof {
            reveal_strlit("\n");
        }
    }
    t.append(line);
}

fn contains_text(list: &Vec<String>, s: &String) -> (r: bool)
    ensures
        r == exists|i: int| 0 <= i < list@.len() && (#[trigger] list@[i])@ == s@,
{
    let mut i: usize = 0;
    while i < list.len()
        invariant
            0 <= i <= list@.len(),
            forall|j: int| 0 <= j < i ==> list@[j]@ != s@,
        decreases list@.len() - i,
    {
        if list[i] == *s {
            return true;
        }
        i = i + 1;
    }
    false
}

fn opt_string(o: &Option<String>) -> (r: String)
    ensures
        r@ == opt_text(*o),
{
    match o {
        Some(s) => s.clone(),
        None => String::new(),
    }
}

impl Booklet {
    /// A booklet with no statement, copied to `dest`.
    pub fn new(config: BookletConfig, dest: String) -> (r: Booklet)
        ensures
            r.config == config,
            r.dest == dest,
            r.statements@.len() == 0,
    {
        Booklet { config, dest, statements: Vec::new() }
    }

    /// Add a statement.
    pub fn add_statement(&mut self, statement: Statement)
        ensures
            final(self).statements@ == old(self).statements@.push(statement),
            final(self).config == old(self).config,
            final(self).dest == old(self).dest,
    {
        self.statements.push(statement);
    }

    /// `if_true` when `b`, otherwise the empty string.
    pub fn bool_to_tpl_string(b: bool, if_true: &str) -> (r: String)
        ensures
            r@ == if b { if_true@ } else { Seq::<char>::empty() },
    {
        if b {
            if_true.to_owned()
        } else {
            String::new()
        }
    }

    /// The packages of all the statements, each once, in order of first use.
    pub fn packages(&self) -> (r: Vec<String>)
        ensures
            lists_packages(r@, self.statements@),
    {
        let sts = &self.statements;
        let mut list: Vec<String> = Vec::new();
        let mut s: usize = 0;
        while s < sts.len()
            invariant
                0 <= s <= sts@.len(),
                forall|i: int, j: int| 0 <= i < j < list@.len() ==> (#[trigger] list@[i])@ != (#[trigger] list@[j])@,
                forall|a: int, p: int|
                    0 <= a < s && 0 <= p < sts@[a].packages@.len() ==> listed(list@, (#[trigger] sts@[a].packages@[p])@),
            decreases sts@.len() - s,
        {
            let ps = &sts[s].packages;
            let mut p: usize = 0;
            while p < ps.len()
                invariant
                    0 <= s < sts@.len(),
                    ps@ == sts@[s as int].packages@,
                    0 <= p <= ps@.len(),
                    forall|i: int, j: int| 0 <= i < j < list@.len() ==> (#[trigger] list@[i])@ != (#[trigger] list@[j])@,
                    forall|a: int, q: int|
                        0 <= a < s && 0 <= q < sts@[a].packages@.len() ==> listed(list@, (#[trigger] sts@[a].packages@[q])@),
                    forall|q: int| 0 <= q < p ==> listed(list@, (#[trigger] ps@[q])@),
                decreases ps@.len() - p,
            {
                if !contains_text(&list, &ps[p]) {
                    let ghost before = list@;
                    list.push(ps[p].clone());
                    proof {
                        let n = before.len() as int;
                        assert(list@[n]@ == ps@[p as int]@);
                        assert forall|k: Seq<char>| listed(before, k) implies listed(list@, k) by {
                            let i = choose|i: int| 0 <= i < before.len() && (#[trigger] before[i])@ == k;
                            assert(list@[i] == before[i]);
                        }
                        assert(listed(list@, ps@[p as int]@));
                    }
                }
                p = p + 1;
            }
            proof {
                assert forall|a: int, q: int|
                    0 <= a < s + 1 && 0 <= q < sts@[a].packages@.len() implies listed(list@, (#[trigger] sts@[a].packages@[q])@) by {
                    if a == s {
                        assert(listed(list@, ps@[q]@));
                    }
                }
            }
            s = s + 1;
        }
        list
    }

    fn join_names(list: &Vec<String>) -> (r: String)
        ensures
            r@ == joined(list@.map_values(|s: String| s@)),
    {
        let mut packages = String::new();
        let mut i: usize = 0;
        while i < list.len()
            invariant
                0 <= i <= list@.len(),
                packages@ == joined(list@.subrange(0, i as int).map_values(|s: String| s@)),
            decreases list@.len() - i,
        {
            push_line(&mut packages, i == 0, list[i].as_str());
            proof {
                let parts = list@.subrange(0, i + 1).map_values(|s: String| s@);
                assert(parts.drop_last() =~= list@.subrange(0, i as int).map_values(|s: String| s@));
                if i == 0 {
                    assert(packages@ =~= joined(parts));
                }
            }
            i = i + 1;
        }
        assert(list@.subrange(0, list@.len() as int) =~= list@);
        packages
    }

    fn task_lines(sts: &Vec<Statement>) -> (r: String)
        ensures
            r@ == joined(sts@.map_values(|st: Statement| input_line(st.name@))),
    {
        let mut tasks = String::new();
        let mut j: usize = 0;
        proof {
            reveal_strlit("\\input{");
            reveal_strlit("/statement.tex}");
        }
        while j < sts.len()
            invariant
                0 <= j <= sts@.len(),
                tasks@ == joined(sts@.subrange(0, j as int).map_values(|st: Statement| input_line(st.name@))),
            decreases sts@.len() - j,
        {
            let mut line = String::new();
            line.append("\\input{");
            line.append(sts[j].name.as_str());
            line.append("/statement.tex}");
            assert(line@ =~= input_line(sts@[j as int].name@));
            push_line(&mut tasks, j == 0, line.as_str());
            proof {
                let parts = sts@.subrange(0, j + 1).map_values(|st: Statement| input_line(st.name@));
                assert(parts.drop_last() =~= sts@.subrange(0, j as int).map_values(|st: Statement| input_line(st.name@)));
                if j == 0 {
                    assert(tasks@ =~= joined(parts));
                }
            }
            j = j + 1;
        }
        assert(sts@.subrange(0, sts@.len() as int) =~= sts@);
        tasks
    }

    /// The values of the template: the configuration, the packages one per
    /// line, and a line including each statement, in order.
    pub fn make_tex(&self) -> (r: BookletTemplate)
        ensures
            r.language@ == self.config.language@,
            r.show_solutions@ == (if self.config.show_solutions { "showsolutions"@ } else { Seq::<char>::empty() }),
            r.show_summary@ == (if self.config.show_summary { "showsummary"@ } else { Seq::<char>::empty() }),
            r.font_enc@ == self.config.font_enc@,
            r.input_enc@ == self.config.input_enc@,
            r.description@ == opt_text(self.config.description),
            r.location@ == opt_text(self.config.location),
            r.date@ == opt_text(self.config.date),
            r.logo@ == opt_text(self.config.logo),
            exists|list: Seq<String>|
                lists_packages(list, self.statements@) && r.packages@ == joined(
                    list.map_values(|s: String| s@),
                ),
            r.tasks@ == joined(self.statements@.map_values(|st: Statement| input_line(st.name@))),
    {
        let list = self.packages();
        let packages = Booklet::join_names(&list);
        let tasks = Booklet::task_lines(&self.statements);
        BookletTemplate {
            language: self.config.language.clone(),
            show_solutions: Booklet::bool_to_tpl_string(self.config.show_solutions, "showsolutions"),
            show_summary: Booklet::bool_to_tpl_string(self.config.show_summary, "showsummary"),
            font_enc: self.config.font_enc.clone(),
            input_enc: self.config.input_enc.clone(),
            description: opt_string(&self.config.description),
            location: opt_string(&self.config.location),
            date: opt_string(&self.config.date),
            logo: opt_string(&self.config.logo),
            packages,
            tasks,
        }
    }
}

} // verus!
