//! The configuration a run works from: the files to scan and the themes.
use crate::errors::{DotfilesError, ErrorView};
use vstd::prelude::*;
use vstd::utf8::encode_utf8;

verus! {

/// A file to scan, and the character whose repetition marks a line.
#[derive(Debug)]
pub struct FileConfig {
    pub file: String,
    pub marker_char: String,
}

/// A named theme: its keywords and the value of each.
#[derive(Debug)]
pub struct ThemeTable {
    pub name: String,
    pub variables: Vec<(String, String)>,
}

/// Everything a run needs to know, loaded once and not changed after.
#[derive(Debug)]
pub struct Config {
    /// The name of the active theme.
    pub theme: String,
    /// How many times the marker character is repeated to form a marker.
    pub marker_repetition_num: usize,
    pub files: Vec<FileConfig>,
    pub themes: Vec<ThemeTable>,
}

/// How many times the marker character is repeated when the
/// configuration does not say.
pub fn get_default_marker_repetition_num() -> (r: usize)
    ensures
        r == 3,
{
    3
}

/// The UTF-8 bytes of a string.
pub open spec fn bytes_of(s: String) -> Seq<u8> {
    encode_utf8(s@)
}

/// The UTF-8 bytes of a string.
pub fn string_bytes(s: &String) -> (r: &[u8])
    ensures
        r@ == bytes_of(*s),
{
    s.as_str().as_bytes()
}

/// `s` written `n` times in a row.
pub open spec fn repeated(s: Seq<u8>, n: nat) -> Seq<u8>
    decreases n,
{
    if n == 0 {
        Seq::empty()
    } else {
        repeated(s, (n - 1) as nat) + s
    }
}

/// The index of the first theme from `from` on that is called `name`.
pub open spec fn first_theme(themes: Seq<ThemeTable>, name: Seq<char>, from: int) -> Option<int>
    decreases themes.len() - from,
{
    if from < 0 || from >= themes.len() {
        None
    } else if themes[from].name@ == name {
        Some(from)
    } else {
        first_theme(themes, name, from + 1)
    }
}

/// The index of the first variable from `from` on whose keyword has the
/// bytes `key`.
pub open spec fn first_variable(vars: Seq<(String, String)>, key: Seq<u8>, from: int) -> Option<
    int,
>
    decreases vars.len() - from,
{
    if from < 0 || from >= vars.len() {
        None
    } else if bytes_of(vars[from].0) == key {
        Some(from)
    } else {
        first_variable(vars, key, from + 1)
    }
}

proof fn lemma_first_theme_bounds(themes: Seq<ThemeTable>, name: Seq<char>, from: int)
    requires
        first_theme(themes, name, from) is Some,
    ensures
        from <= first_theme(themes, name, from)->0 < themes.len(),
    decreases themes.len() - from,
{
    if from < 0 || from >= themes.len() {
    } else if themes[from].name@ == name {
    } else {
        lemma_first_theme_bounds(themes, name, from + 1);
    }
}

impl ThemeTable {
    /// A theme maps keywords to values: no two variables share a keyword.
    pub open spec fn wf(&self) -> bool {
        forall|i: int, j: int|
            0 <= i < j < self.variables@.len() ==> bytes_of(#[trigger] self.variables@[i].0)
                != bytes_of(#[trigger] self.variables@[j].0)
    }

    /// Whether no two variables share a keyword.
    pub fn has_unique_keywords(&self) -> (r: bool)
        ensures
            r == self.wf(),
    {
        let vars = &self.variables;
        let mut j: usize = 0;
        while j < vars.len()
            invariant
                vars == &self.variables,
                j <= vars@.len(),
                forall|a: int, b: int|
                    0 <= a < b < j ==> bytes_of(#[trigger] vars@[a].0) != bytes_of(
                        #[trigger] vars@[b].0,
                    ),
            decreases vars@.len() - j,
        {
            let mut i: usize = 0;
            while i < j
                invariant
                    vars == &self.variables,
                    i <= j < vars@.len(),
                    forall|a: int, b: int|
                        0 <= a < b < j ==> bytes_of(#[trigger] vars@[a].0) != bytes_of(
                            #[trigger] vars@[b].0,
                        ),
                    forall|a: int| 0 <= a < i ==> bytes_of(#[trigger] vars@[a].0) != bytes_of(
                        vars@[j as int].0,
                    ),
                decreases j - i,
            {
                if crate::text::bytes_equal(string_bytes(&vars[i].0), string_bytes(&vars[j].0)) {
                    return false;
                }
                i = i + 1;
            }
            j = j + 1;
        }
        true
    }
}

impl FileConfig {
    /// The marker of this file: its marker character written `n` times.
    pub fn marker(&self, n: usize) -> (r: Vec<u8>)
        ensures
            r@ == repeated(bytes_of(self.marker_char), n as nat),
    {
        let unit = string_bytes(&self.marker_char);
        let mut r: Vec<u8> = Vec::new();
        let mut k: usize = 0;
        while k < n
            invariant
                k <= n,
                unit@ == bytes_of(self.marker_char),
                r@ == repeated(unit@, k as nat),
            decreases n - k,
        {
            let mut j: usize = 0;
            let ghost before = r@;
            while j < unit.len()
                invariant
                    j <= unit@.len(),
                    r@ == before + unit@.subrange(0, j as int),
                decreases unit@.len() - j,
            {
                r.push(unit[j]);
                assert(unit@.subrange(0, j + 1) =~= unit@.subrange(0, j as int).push(unit@[j as int]));
                j = j + 1;
            }
            assert(unit@.subrange(0, j as int) =~= unit@);
            k = k + 1;
        }
        r
    }
}

impl Config {
    /// Every theme maps keywords to values.
    pub open spec fn wf(&self) -> bool {
        forall|i: int| 0 <= i < self.themes@.len() ==> (#[trigger] self.themes@[i]).wf()
    }

    /// Whether every theme maps keywords to values.
    pub fn is_well_formed(&self) -> (r: bool)
        ensures
            r == self.wf(),
    {
        let mut i: usize = 0;
        while i < self.themes.len()
            invariant
                i <= self.themes@.len(),
                forall|k: int| 0 <= k < i ==> (#[trigger] self.themes@[k]).wf(),
            decreases self.themes@.len() - i,
        {
            if !self.themes[i].has_unique_keywords() {
                return false;
            }
            i = i + 1;
        }
        true
    }

    /// Each theme's name together with a copy of its variables, in the
    /// order the themes were given.
    pub fn get_theme_hashmap(&self) -> (r: Vec<(String, Vec<(String, String)>)>)
        ensures
            r@.len() == self.themes@.len(),
            forall|i: int|
                0 <= i < r@.len() ==> (#[trigger] r@[i]).0@ == self.themes@[i].name@
                    && r@[i].1.deep_view() == self.themes@[i].variables.deep_view(),
    {
        let mut r: Vec<(String, Vec<(String, String)>)> = Vec::new();
        let mut k: usize = 0;
        while k < self.themes.len()
            invariant
                k <= self.themes@.len(),
                r@.len() == k,
                forall|i: int|
                    0 <= i < k ==> (#[trigger] r@[i]).0@ == self.themes@[i].name@
                        && r@[i].1.deep_view() == self.themes@[i].variables.deep_view(),
            decreases self.themes@.len() - k,
        {
            let theme = &self.themes[k];
            r.push((theme.name.clone(), copy_variables(&theme.variables)));
            k = k + 1;
        }
        r
    }

    /// Which theme is active: the only one called by the configured name.
    /// No such theme, or more than one, is an error.
    pub open spec fn active_theme(&self) -> Result<int, ErrorView> {
        match first_theme(self.themes@, self.theme@, 0) {
            None => Err(
                ErrorView::ThemeNotFound {
                    name: self.theme@,
                    themes: self.themes@.map_values(|t: ThemeTable| t.name@),
                },
            ),
            Some(i) => if first_theme(self.themes@, self.theme@, i + 1) is Some {
                Err(ErrorView::ThemeDefinedTwice { name: self.theme@ })
            } else {
                Ok(i)
            },
        }
    }

    /// Finds the active theme (see [`Config::active_theme`]).
    pub fn find_active_theme(&self) -> (r: Result<usize, DotfilesError>)
        ensures
            match r {
                Ok(i) => self.active_theme() == Ok::<int, ErrorView>(i as int) && i
                    < self.themes@.len(),
                Err(e) => self.active_theme() == Err::<int, ErrorView>(e@),
            },
    {
        let mut found: Option<usize> = None;
        let mut i: usize = 0;
        while i < self.themes.len()
            invariant
                i <= self.themes@.len(),
                match found {
                    None => first_theme(self.themes@, self.theme@, 0) == first_theme(
                        self.themes@,
                        self.theme@,
                        i as int,
                    ),
                    Some(f) => f < i && first_theme(self.themes@, self.theme@, 0) == Some(
                        f as int,
                    ) && first_theme(self.themes@, self.theme@, f + 1) == first_theme(
                        self.themes@,
                        self.theme@,
                        i as int,
                    ),
                },
            decreases self.themes@.len() - i,
        {
            if self.themes[i].name == self.theme {
                match found {
                    None => {
                        found = Some(i);
                    },
                    Some(_) => {
                        return Err(DotfilesError::ThemeDefinedTwice { name: self.theme.clone() });
                    },
                }
            }
            i = i + 1;
        }
        match found {
            Some(f) => {
                proof {
                    lemma_first_theme_bounds(self.themes@, self.theme@, 0);
                }
                Ok(f)
            },
            None => {
                let mut names: Vec<String> = Vec::new();
                let mut k: usize = 0;
                while k < self.themes.len()
                    invariant
                        k <= self.themes@.len(),
                        names@.len() == k,
                        forall|j: int| 0 <= j < k ==> (#[trigger] names@[j])@ == self.themes@[j].name@,
                    decreases self.themes@.len() - k,
                {
                    names.push(self.themes[k].name.clone());
                    k = k + 1;
                }
                assert(names.deep_view() =~= self.themes@.map_values(|t: ThemeTable| t.name@)) by {
                    assert forall|j: int| 0 <= j < k implies #[trigger] names.deep_view()[j]
                        == self.themes@.map_values(|t: ThemeTable| t.name@)[j] by {
                        assert(names.deep_view()[j] == names@[j]@);
                    }
                }
                Err(DotfilesError::ThemeNotFound { name: self.theme.clone(), themes: names })
            },
        }
    }
}

/// A copy of a theme's variables.
pub fn copy_variables(vars: &Vec<(String, String)>) -> (r: Vec<(String, String)>)
    ensures
        r.deep_view() == vars.deep_view(),
{
    let mut r: Vec<(String, String)> = Vec::new();
    let mut k: usize = 0;
    while k < vars.len()
        invariant
            k <= vars@.len(),
            r@.len() == k,
            forall|j: int|
                0 <= j < k ==> (#[trigger] r@[j]).0@ == vars@[j].0@ && r@[j].1@ == vars@[j].1@,
        decreases vars@.len() - k,
    {
        let (key, value) = &vars[k];
        r.push((key.clone(), value.clone()));
        k = k + 1;
    }
    assert(r.deep_view() =~= vars.deep_view()) by {
        assert forall|j: int| 0 <= j < k implies #[trigger] r.deep_view()[j]
            == vars.deep_view()[j] by {
            assert(r.deep_view()[j] == r@[j].deep_view());
            assert(vars.deep_view()[j] == vars@[j].deep_view());
        }
    }
    r
}

} // verus!
