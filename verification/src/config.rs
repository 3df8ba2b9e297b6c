//! The resolved configuration of one assembly invocation, and the
//! drivers that build the registry and the data context from it.

use vstd::prelude::*;

use crate::data::merge_list_spec;
use crate::data::seq_view;
use crate::data::DataValue;
use crate::data::SpecData;
use crate::errors::ConfigError;
use crate::registry::TemplateRegistry;

verus! {

/// How much the leveled sink should report.
#[derive(Debug, PartialEq, Eq, Structural, Clone, Copy)]
pub enum LogLevel {
    Info,
    Warn,
}

/// The values a configuration file may supply; every field is
/// optional there.
pub struct ConfigRead {
    pub template: Option<String>,
    pub output: Option<String>,
    pub force: bool,
    pub follow: bool,
    pub strict: bool,
    pub verbose: bool,
    pub includes: Vec<String>,
    pub extensions: Vec<String>,
    pub datafiles: Vec<String>,
    pub data: Option<DataValue>,
}

/// The values the command line may supply.
pub struct CliArgs {
    pub template: Option<String>,
    pub output: Option<String>,
    pub force: bool,
    pub follow: bool,
    pub strict: bool,
    pub verbose: bool,
    pub includes: Vec<String>,
    pub extensions: Vec<String>,
    pub datafiles: Vec<String>,
}

/// The fully resolved configuration of one invocation.
pub struct Config {
    pub template: String,
    pub output: String,
    pub force: bool,
    pub follow: bool,
    pub strict: bool,
    pub verbose: bool,
    pub includes: Vec<String>,
    pub extensions: Vec<String>,
    pub datafiles: Vec<String>,
    pub data: DataValue,
}

impl Config {
    /// Resolves the configuration: command-line values override the
    /// file's scalars, list values concatenate (file entries first),
    /// and a missing template or output path is an error.
    pub fn resolve(file: ConfigRead, cli: CliArgs) -> (r: Result<Config, ConfigError>)
        ensures
            r is Err ==> (cli.template is None && file.template is None && r == Err::<
                Config,
                ConfigError,
            >(ConfigError::MissingTemplate)) || (!(cli.template is None && file.template is None)
                && cli.output is None && file.output is None && r == Err::<Config, ConfigError>(
                ConfigError::MissingOutput,
            )),
            r matches Ok(c) ==> {
                &&& c.template@ == (if cli.template is Some {
                    cli.template.unwrap()@
                } else {
                    file.template.unwrap()@
                })
                &&& c.output@ == (if cli.output is Some {
                    cli.output.unwrap()@
                } else {
                    file.output.unwrap()@
                })
                &&& (cli.template is Some || file.template is Some)
                &&& (cli.output is Some || file.output is Some)
                &&& c.force == (cli.force || file.force)
                &&& c.follow == (cli.follow || file.follow)
                &&& c.strict == (cli.strict || file.strict)
                &&& c.verbose == (cli.verbose || file.verbose)
                &&& c.includes@ == file.includes@ + cli.includes@
                &&& c.extensions@ == file.extensions@ + cli.extensions@
                &&& c.datafiles@ == file.datafiles@ + cli.datafiles@
                &&& c.data@ == (if file.data is Some {
                    file.data.unwrap()@
                } else {
                    SpecData::Mapping(Seq::empty())
                })
            },
    {
        let template = match (cli.template, file.template) {
            (Some(t), _) => t,
            (None, Some(t)) => t,
            (None, None) => {
                return Err(ConfigError::MissingTemplate);
            },
        };
        let output = match (cli.output, file.output) {
            (Some(o), _) => o,
            (None, Some(o)) => o,
            (None, None) => {
                return Err(ConfigError::MissingOutput);
            },
        };
        let mut includes = file.includes;
        let mut cli_includes = cli.includes;
        includes.append(&mut cli_includes);
        let mut extensions = file.extensions;
        let mut cli_extensions = cli.extensions;
        extensions.append(&mut cli_extensions);
        let mut datafiles = file.datafiles;
        let mut cli_datafiles = cli.datafiles;
        datafiles.append(&mut cli_datafiles);
        let data = match file.data {
            Some(d) => d,
            None => DataValue::Mapping(Vec::new()),
        };
        proof {
            assert(crate::data::pairs_view(Seq::<(String, DataValue)>::empty()) =~= Seq::<
                (Seq<char>, SpecData),
            >::empty());
        }
        Ok(
            Config {
                template,
                output,
                force: cli.force || file.force,
                follow: cli.follow || file.follow,
                strict: cli.strict || file.strict,
                verbose: cli.verbose || file.verbose,
                includes,
                extensions,
                datafiles,
                data,
            },
        )
    }

    /// The log level verbosity selects.
    pub fn log_level(&self) -> (r: LogLevel)
        ensures
            r == (if self.verbose {
                LogLevel::Info
            } else {
                LogLevel::Warn
            }),
    {
        if self.verbose {
            LogLevel::Info
        } else {
            LogLevel::Warn
        }
    }

    /// Whether the output file may be written: an existing file is
    /// only overwritten under force.
    pub fn write_allowed(&self, output_exists: bool) -> (r: bool)
        ensures
            r == (self.force || !output_exists),
    {
        self.force || !output_exists
    }

    /// Builds the data context from the inline data block and the
    /// documents parsed from the declared data files, in order.
    pub fn read_data(&self, parsed: Vec<DataValue>) -> (r: DataValue)
        ensures
            r@ == merge_list_spec(self.data@, seq_view(parsed@)),
    {
        let base = self.data.duplicate();
        crate::data::merge_all(base, parsed)
    }

    /// Builds the registry from the main template's content and the
    /// collected fragments, in collection order.  Construction is
    /// all-or-nothing: any duplicate identifier fails the whole build.
    pub fn new_registry(&self, main_content: String, fragments: Vec<(String, String)>) -> (r:
        Option<TemplateRegistry>)
        ensures
            r is Some <==> fresh_names(names_view(fragments@), map_init(main_content@).dom()),
            r matches Some(reg) ==> reg.wf() && reg@ == map_fold(
                map_init(main_content@),
                pairs_str_view(fragments@),
            ),
    {
        let mut registry = TemplateRegistry::new(main_content);
        let ghost m0 = registry@;
        let mut failed = false;
        let mut rest = fragments;
        let ghost frags0 = pairs_str_view(rest@);
        let ghost names0 = frags0.map_values(|p: (Seq<char>, Seq<char>)| p.0);
        let ghost mut k: int = 0;
        while rest.len() > 0
            invariant
                registry.wf(),
                0 <= k <= frags0.len(),
                names0 == frags0.map_values(|p: (Seq<char>, Seq<char>)| p.0),
                names0.len() == frags0.len(),
                pairs_str_view(rest@) =~= frags0.subrange(k, frags0.len() as int),
                m0 == map_init(main_content@),
                !failed ==> registry@ == map_fold(m0, frags0.subrange(0, k)),
                !failed ==> fresh_names(names0.subrange(0, k), m0.dom()),
                failed ==> !fresh_names(names0, m0.dom()),
            decreases rest@.len(),
        {
            let ghost rest_pre = pairs_str_view(rest@);
            let p = rest.remove(0);
            proof {
                assert(rest_pre.len() == frags0.len() - k);
                assert(k < frags0.len());
                assert(rest_pre[0] == (p.0@, p.1@));
                assert(frags0.subrange(k, frags0.len() as int)[0] == frags0[k]);
                assert(rest_pre[0] == frags0[k]);
                assert(pairs_str_view(rest@) =~= rest_pre.drop_first());
                assert(rest_pre.drop_first() =~= frags0.subrange(k + 1, frags0.len() as int));
                assert(names0[k] == frags0[k].0);
            }
            let ghost reg_pre = registry@;
            let res = registry.register(p.0, p.1);
            proof {
                let done = frags0.subrange(0, k);
                let done1 = frags0.subrange(0, k + 1);
                assert(done1.drop_last() =~= done);
                assert(done1.last() == frags0[k]);
                if !failed {
                    lemma_map_fold_dom(m0, done);
                    if res is Err {
                        assert(reg_pre.dom().contains(frags0[k].0));
                        if !m0.dom().contains(names0[k]) {
                            let i = choose|i: int|
                                0 <= i < done.len() && (#[trigger] done[i]).0 == frags0[k].0;
                            assert(names0[i] == names0[k]);
                        }
                        lemma_not_fresh(names0, m0.dom(), k);
                    } else {
                        assert(!reg_pre.dom().contains(frags0[k].0));
                        assert(!m0.dom().contains(names0[k]));
                        assert forall|i: int| 0 <= i < k implies names0[i] != names0[k] by {
                            assert(done[i] == frags0[i]);
                            assert(names0[i] == frags0[i].0);
                        }
                        lemma_fresh_extend(names0, m0.dom(), k);
                        assert(map_fold(m0, done1) == map_fold(m0, done).insert(
                            frags0[k].0,
                            frags0[k].1,
                        ));
                    }
                }
                k = k + 1;
            }
            if let Err(_) = res {
                failed = true;
            }
        }
        proof {
            assert(frags0.subrange(0, frags0.len() as int) =~= frags0);
            assert(names0.subrange(0, names0.len() as int) =~= names0);
        }
        if failed {
            None
        } else {
            Some(registry)
        }
    }
}

/// The names of a fragment list, in order.
pub open spec fn names_view(s: Seq<(String, String)>) -> Seq<Seq<char>> {
    pairs_str_view(s).map_values(|p: (Seq<char>, Seq<char>)| p.0)
}

/// The fragment list as pairs of character sequences.
pub open spec fn pairs_str_view(s: Seq<(String, String)>) -> Seq<(Seq<char>, Seq<char>)> {
    Seq::new(s.len(), |i: int| if 0 <= i < s.len() { (s[i].0@, s[i].1@) } else { (Seq::empty(), Seq::empty()) })
}

/// The namespace before any fragment: the reserved `main` entry.
pub open spec fn map_init(main_content: Seq<char>) -> Map<Seq<char>, Seq<char>> {
    Map::<Seq<char>, Seq<char>>::empty().insert("main"@, main_content)
}

/// Inserting each fragment, left to right.
pub open spec fn map_fold(
    m: Map<Seq<char>, Seq<char>>,
    s: Seq<(Seq<char>, Seq<char>)>,
) -> Map<Seq<char>, Seq<char>>
    decreases s.len(),
{
    if s.len() == 0 {
        m
    } else {
        map_fold(m, s.drop_last()).insert(s.last().0, s.last().1)
    }
}

/// No name collides: none is already reserved, and no two are equal.
pub open spec fn fresh_names(names: Seq<Seq<char>>, dom0: Set<Seq<char>>) -> bool {
    (forall|i: int| 0 <= i < names.len() ==> !dom0.contains(#[trigger] names[i])) && (forall|
        i: int,
        j: int,
    |
        0 <= i < j < names.len() ==> names[i] != names[j])
}

/// The folded namespace holds the initial names and the fragments'.
proof fn lemma_map_fold_dom(m: Map<Seq<char>, Seq<char>>, s: Seq<(Seq<char>, Seq<char>)>)
    ensures
        forall|n: Seq<char>|
            map_fold(m, s).dom().contains(n) <==> m.dom().contains(n) || exists|i: int|
                0 <= i < s.len() && (#[trigger] s[i]).0 == n,
    decreases s.len(),
{
    if s.len() > 0 {
        lemma_map_fold_dom(m, s.drop_last());
        assert forall|n: Seq<char>|
            map_fold(m, s).dom().contains(n) implies m.dom().contains(n) || exists|i: int|
            0 <= i < s.len() && (#[trigger] s[i]).0 == n by {
            if n != s.last().0 {
                if !m.dom().contains(n) {
                    let i = choose|i: int| 0 <= i < s.drop_last().len() && (#[trigger] s.drop_last()[i]).0 == n;
                    assert(s[i].0 == n);
                }
            } else {
                assert(s[s.len() - 1].0 == n);
            }
        }
        assert forall|n: Seq<char>|
            m.dom().contains(n) || exists|i: int|
                0 <= i < s.len() && (#[trigger] s[i]).0 == n implies map_fold(m, s).dom().contains(
            n,
        ) by {
            if !m.dom().contains(n) && n != s.last().0 {
                let i = choose|i: int| 0 <= i < s.len() && (#[trigger] s[i]).0 == n;
                assert(s.drop_last()[i].0 == n);
            }
        }
    }
}

/// A collision found at position `k` refutes freshness of the whole.
proof fn lemma_not_fresh(names: Seq<Seq<char>>, dom0: Set<Seq<char>>, k: int)
    requires
        0 <= k < names.len(),
        dom0.contains(names[k]) || exists|i: int| 0 <= i < k && names[i] == names[k],
    ensures
        !fresh_names(names, dom0),
{
}

/// Freshness of a prefix extends by one fresh name.
proof fn lemma_fresh_extend(names: Seq<Seq<char>>, dom0: Set<Seq<char>>, k: int)
    requires
        0 <= k < names.len(),
        fresh_names(names.subrange(0, k), dom0),
        !dom0.contains(names[k]),
        forall|i: int| 0 <= i < k ==> names[i] != names[k],
    ensures
        fresh_names(names.subrange(0, k + 1), dom0),
{
    let pre = names.subrange(0, k);
    let cur = names.subrange(0, k + 1);
    assert(forall|i: int| 0 <= i < k ==> cur[i] == pre[i]);
    assert(cur[k] == names[k]);
}

} // verus!
