//! The names of a colour configuration, and the check that they are
//! consistent: nothing is named twice, and every colour space that is
//! referred to exists.

use vstd::prelude::*;

verus! {

/// What is wrong with the names of a configuration.
#[derive(Debug, Clone, PartialEq, Eq)]
pub enum ValidationError {
    DuplicateColorSpace(String),
    DuplicateDisplay(String),
    DuplicateRole(String),
    DuplicateLook(String),
    ReferenceToAbsentColorSpace(String),
}

/// What a check of names finds: nothing, or the first thing wrong with
/// the name that it is wrong with.
pub enum Verdict {
    Valid,
    DuplicateColorSpace(Seq<char>),
    DuplicateDisplay(Seq<char>),
    DuplicateRole(Seq<char>),
    DuplicateLook(Seq<char>),
    ReferenceToAbsentColorSpace(Seq<char>),
}

impl ValidationError {
    /// The error as a verdict.
    pub open spec fn verdict(self) -> Verdict {
        match self {
            ValidationError::DuplicateColorSpace(s) => Verdict::DuplicateColorSpace(s@),
            ValidationError::DuplicateDisplay(s) => Verdict::DuplicateDisplay(s@),
            ValidationError::DuplicateRole(s) => Verdict::DuplicateRole(s@),
            ValidationError::DuplicateLook(s) => Verdict::DuplicateLook(s@),
            ValidationError::ReferenceToAbsentColorSpace(s) => Verdict::ReferenceToAbsentColorSpace(
                s@,
            ),
        }
    }
}

/// Which colour space serves which purpose. The five fixed roles name a
/// colour space or nothing; each further role is a pair of the role's
/// name and the colour space's. The pairs are meant as a map from role
/// to colour space, in which no role is named twice (`other_distinct`);
/// `ConfigNames::validate` reports a list that is none.
#[derive(Debug, Clone, PartialEq, Eq)]
pub struct Roles {
    pub reference: Option<String>,
    pub aces_interchange: Option<String>,
    pub cie_xyz_d65_interchange: Option<String>,
    pub default: Option<String>,
    pub data: Option<String>,
    pub other: Vec<(String, String)>,
}

/// No name stands at two places.
pub open spec fn distinct(names: Seq<Seq<char>>) -> bool {
    forall|i: int, j: int| 0 <= i < j < names.len() ==> names[i] != names[j]
}

impl Roles {
    /// The other roles are a map: no role is named twice among them.
    pub open spec fn other_distinct(&self) -> bool {
        distinct(firsts(self.other@))
    }
}

impl Default for Roles {
    fn default() -> (r: Roles)
        ensures
            r.reference.is_none(),
            r.aces_interchange.is_none(),
            r.cie_xyz_d65_interchange.is_none(),
            r.default.is_none(),
            r.data.is_none(),
            r.other@.len() == 0,
    {
        Roles {
            reference: None,
            aces_interchange: None,
            cie_xyz_d65_interchange: None,
            default: None,
            data: None,
            other: Vec::new(),
        }
    }
}

/// A display and its views, each a pair of the view's name and the
/// colour space's.
#[derive(Debug, Clone, PartialEq, Eq)]
pub struct Display {
    pub name: String,
    pub views: Vec<(String, String)>,
}

/// The names of a configuration: its colour spaces, roles, displays and
/// looks.
#[derive(Debug, Clone, PartialEq, Eq)]
pub struct ConfigNames {
    pub colorspaces: Vec<String>,
    pub roles: Roles,
    pub displays: Vec<Display>,
    pub looks: Vec<String>,
}

/// The text of each string of a sequence.
pub open spec fn texts(names: Seq<String>) -> Seq<Seq<char>> {
    Seq::new(names.len(), |i: int| names[i]@)
}

/// The name at `j` stands at an earlier place too.
pub open spec fn occurs_before(names: Seq<Seq<char>>, j: int) -> bool {
    exists|i: int| 0 <= i < j && names[i] == names[j]
}

/// The first place among the first `n` whose name stands at an earlier
/// place too.
pub open spec fn first_repeat_upto(names: Seq<Seq<char>>, n: int) -> Option<int>
    decreases n,
{
    if n <= 0 {
        None
    } else {
        match first_repeat_upto(names, n - 1) {
            Some(j) => Some(j),
            None => if occurs_before(names, n - 1) {
                Some(n - 1)
            } else {
                None
            },
        }
    }
}

/// The first place whose name stands at an earlier place too.
pub open spec fn first_repeat(names: Seq<Seq<char>>) -> Option<int> {
    first_repeat_upto(names, names.len() as int)
}

/// The first place among the first `n` references whose name is not
/// known.
pub open spec fn first_absent_upto(refs: Seq<Seq<char>>, known: Seq<Seq<char>>, n: int) -> Option<
    int,
>
    decreases n,
{
    if n <= 0 {
        None
    } else {
        match first_absent_upto(refs, known, n - 1) {
            Some(k) => Some(k),
            None => if known.contains(refs[n - 1]) {
                None
            } else {
                Some(n - 1)
            },
        }
    }
}

/// The first reference whose name is not known.
pub open spec fn first_absent(refs: Seq<Seq<char>>, known: Seq<Seq<char>>) -> Option<int> {
    first_absent_upto(refs, known, refs.len() as int)
}

/// A first repeat is a repeat, and no place before it is one; where
/// there is none, no place is.
pub proof fn lemma_first_repeat(names: Seq<Seq<char>>, n: int)
    requires
        0 <= n <= names.len(),
    ensures
        match first_repeat_upto(names, n) {
            Some(j) => 0 <= j < n && occurs_before(names, j) && forall|k: int|
                0 <= k < j ==> !occurs_before(names, k),
            None => forall|k: int| 0 <= k < n ==> !occurs_before(names, k),
        },
    decreases n,
{
    if n > 0 {
        lemma_first_repeat(names, n - 1);
    }
}

/// A first absent reference is absent, and no reference before it is;
/// where there is none, every reference is known.
pub proof fn lemma_first_absent(refs: Seq<Seq<char>>, known: Seq<Seq<char>>, n: int)
    requires
        0 <= n <= refs.len(),
    ensures
        match first_absent_upto(refs, known, n) {
            Some(k) => 0 <= k < n && !known.contains(refs[k]) && forall|m: int|
                0 <= m < k ==> known.contains(#[trigger] refs[m]),
            None => forall|m: int| 0 <= m < n ==> known.contains(#[trigger] refs[m]),
        },
    decreases n,
{
    if n > 0 {
        lemma_first_absent(refs, known, n - 1);
    }
}

/// The names of the five fixed roles.
pub open spec fn fixed_roles() -> Seq<Seq<char>> {
    seq![
        "reference"@,
        "aces_interchange"@,
        "cie_xyz_d65_interchange"@,
        "default"@,
        "data"@,
    ]
}

/// The first parts of pairs.
pub open spec fn firsts(pairs: Seq<(String, String)>) -> Seq<Seq<char>> {
    Seq::new(pairs.len(), |i: int| pairs[i].0@)
}

/// The second parts of pairs.
pub open spec fn seconds(pairs: Seq<(String, String)>) -> Seq<Seq<char>> {
    Seq::new(pairs.len(), |i: int| pairs[i].1@)
}

/// A name that may be there, as a sequence of no name or one.
pub open spec fn given(name: Option<String>) -> Seq<Seq<char>> {
    match name {
        Some(s) => seq![s@],
        None => Seq::empty(),
    }
}

/// The names of the displays.
pub open spec fn display_names(displays: Seq<Display>) -> Seq<Seq<char>> {
    Seq::new(displays.len(), |i: int| displays[i].name@)
}

/// The colour spaces that the views of the first `n` displays refer to.
pub open spec fn view_spaces(displays: Seq<Display>, n: int) -> Seq<Seq<char>>
    decreases n,
{
    if n <= 0 {
        Seq::empty()
    } else {
        view_spaces(displays, n - 1) + seconds(displays[n - 1].views@)
    }
}

impl ConfigNames {
    /// The names of all roles: the fixed ones, then the others.
    pub open spec fn role_names(&self) -> Seq<Seq<char>> {
        fixed_roles() + firsts(self.roles.other@)
    }

    /// Every colour space that is referred to: by the fixed roles that
    /// are given, by the other roles, and by the views of the displays.
    pub open spec fn references(&self) -> Seq<Seq<char>> {
        given(self.roles.reference) + given(self.roles.aces_interchange) + given(
            self.roles.cie_xyz_d65_interchange,
        ) + given(self.roles.default) + given(self.roles.data) + seconds(self.roles.other@)
            + view_spaces(self.displays@, self.displays@.len() as int)
    }

    /// The first thing wrong with the names: a colour space, a role, a
    /// display or a look that is named twice, looked for in this order,
    /// or else a reference to a colour space that there is not.
    pub open spec fn verdict(&self) -> Verdict {
        let spaces = texts(self.colorspaces@);
        let roles = self.role_names();
        let displays = display_names(self.displays@);
        let looks = texts(self.looks@);
        let refs = self.references();
        if let Some(j) = first_repeat(spaces) {
            Verdict::DuplicateColorSpace(spaces[j])
        } else if let Some(j) = first_repeat(roles) {
            Verdict::DuplicateRole(roles[j])
        } else if let Some(j) = first_repeat(displays) {
            Verdict::DuplicateDisplay(displays[j])
        } else if let Some(j) = first_repeat(looks) {
            Verdict::DuplicateLook(looks[j])
        } else if let Some(k) = first_absent(refs, spaces) {
            Verdict::ReferenceToAbsentColorSpace(refs[k])
        } else {
            Verdict::Valid
        }
    }
}

/// Where the other roles are a map, the only role that can be found
/// twice is one of the fixed roles, named again among the others.
pub proof fn lemma_duplicate_role_is_fixed(config: ConfigNames)
    requires
        config.roles.other_distinct(),
        first_repeat(config.role_names()).is_some(),
    ensures
        fixed_roles().contains(config.role_names()[first_repeat(config.role_names()).unwrap()]),
{
    let roles = config.role_names();
    let others = firsts(config.roles.other@);
    let fixed = fixed_roles();
    let j = first_repeat(roles).unwrap();
    lemma_first_repeat(roles, roles.len() as int);
    assert(fixed.len() == 5);
    assert(occurs_before(roles, j));
    let i = choose|i: int| 0 <= i < j && roles[i] == roles[j];
    if j < 5 {
        assert(roles[j] == fixed[j]);
    } else {
        assert(roles[j] == others[j - 5]);
        if i >= 5 {
            assert(roles[i] == others[i - 5]);
            assert(others[i - 5] != others[j - 5]);
        }
        assert(roles[i] == fixed[i]);
    }
}

/// Whether a name stands among the first `n` names.
fn stands_before(names: &Vec<String>, n: usize, name: &String) -> (found: bool)
    requires
        n <= names.len(),
    ensures
        found <==> exists|i: int| 0 <= i < n && texts(names@)[i] == name@,
{
    let mut i: usize = 0;
    while i < n
        invariant
            0 <= i <= n <= names.len(),
            forall|k: int| 0 <= k < i ==> texts(names@)[k] != name@,
        decreases n - i,
    {
        if names[i] == *name {
            assert(texts(names@)[i as int] == name@);
            return true;
        }
        i = i + 1;
    }
    false
}

/// Finds the first name that stands at an earlier place too.
pub fn find_repeat(names: &Vec<String>) -> (r: Option<usize>)
    ensures
        match r {
            Some(j) => first_repeat(texts(names@)) == Some(j as int) && j < names.len(),
            None => first_repeat(texts(names@)).is_none(),
        },
{
    let ghost all = texts(names@);
    let mut j: usize = 0;
    while j < names.len()
        invariant
            0 <= j <= names.len(),
            all == texts(names@),
            first_repeat_upto(all, j as int).is_none(),
        decreases names.len() - j,
    {
        if stands_before(names, j, &names[j]) {
            proof {
                assert(occurs_before(all, j as int));
                lemma_repeat_found(all, j as int, all.len() as int);
            }
            return Some(j);
        }
        assert(!occurs_before(all, j as int));
        j = j + 1;
    }
    None
}

/// A first repeat among a number of places is the first repeat among
/// any greater number.
pub proof fn lemma_repeat_found(names: Seq<Seq<char>>, j: int, n: int)
    requires
        0 <= j < n,
        first_repeat_upto(names, j).is_none(),
        occurs_before(names, j),
    ensures
        first_repeat_upto(names, n) == Some(j),
    decreases n,
{
    if n > j + 1 {
        lemma_repeat_found(names, j, n - 1);
    }
}

/// A first absent reference among a number of references is the first
/// absent one among any greater number.
pub proof fn lemma_absent_found(refs: Seq<Seq<char>>, known: Seq<Seq<char>>, k: int, n: int)
    requires
        0 <= k < n,
        first_absent_upto(refs, known, k).is_none(),
        !known.contains(refs[k]),
    ensures
        first_absent_upto(refs, known, n) == Some(k),
    decreases n,
{
    if n > k + 1 {
        lemma_absent_found(refs, known, k, n - 1);
    }
}

/// Finds the first reference whose name is not known.
pub fn find_absent(refs: &Vec<String>, known: &Vec<String>) -> (r: Option<usize>)
    ensures
        match r {
            Some(k) => first_absent(texts(refs@), texts(known@)) == Some(k as int) && k
                < refs.len(),
            None => first_absent(texts(refs@), texts(known@)).is_none(),
        },
{
    let ghost all = texts(refs@);
    let ghost have = texts(known@);
    let mut k: usize = 0;
    while k < refs.len()
        invariant
            0 <= k <= refs.len(),
            all == texts(refs@),
            have == texts(known@),
            first_absent_upto(all, have, k as int).is_none(),
        decreases refs.len() - k,
    {
        let found: bool = stands_before(known, known.len(), &refs[k]);
        if !found {
            proof {
                assert(!have.contains(all[k as int])) by {
                    if have.contains(all[k as int]) {
                        let i = choose|i: int| 0 <= i < have.len() && have[i] == all[k as int];
                        assert(texts(known@)[i] == refs[k as int]@);
                    }
                }
                lemma_absent_found(all, have, k as int, all.len() as int);
            }
            return Some(k);
        }
        proof {
            let i = choose|i: int| 0 <= i < known.len() && texts(known@)[i] == refs[k as int]@;
            assert(have[i] == all[k as int]);
        }
        k = k + 1;
    }
    None
}

fn push_given(list: &mut Vec<String>, name: &Option<String>)
    ensures
        texts(final(list)@) == texts(old(list)@) + given(*name),
{
    match name {
        Some(s) => {
            list.push(s.clone());
            assert(texts(list@) =~= texts(old(list)@) + given(*name));
        },
        None => {
            assert(texts(list@) =~= texts(old(list)@) + given(*name));
        },
    }
}

fn push_parts(list: &mut Vec<String>, pairs: &Vec<(String, String)>, second: bool)
    ensures
        texts(final(list)@) == texts(old(list)@) + if second {
            seconds(pairs@)
        } else {
            firsts(pairs@)
        },
{
    let ghost start = texts(list@);
    let ghost parts = if second {
        seconds(pairs@)
    } else {
        firsts(pairs@)
    };
    let mut i: usize = 0;
    while i < pairs.len()
        invariant
            0 <= i <= pairs.len(),
            parts == if second {
                seconds(pairs@)
            } else {
                firsts(pairs@)
            },
            texts(list@) =~= start + parts.subrange(0, i as int),
        decreases pairs.len() - i,
    {
        let ghost before = texts(list@);
        let part: String = if second {
            pairs[i].1.clone()
        } else {
            pairs[i].0.clone()
        };
        assert(part@ == parts[i as int]);
        list.push(part);
        assert(texts(list@) =~= before.push(parts[i as int]));
        assert(parts.subrange(0, i + 1) =~= parts.subrange(0, i as int).push(parts[i as int]));
        i = i + 1;
    }
    assert(parts.subrange(0, pairs.len() as int) =~= parts);
}

impl ConfigNames {
    fn role_list(&self) -> (list: Vec<String>)
        ensures
            texts(list@) == self.role_names(),
    {
        let mut list: Vec<String> = Vec::new();
        list.push("reference".to_owned());
        list.push("aces_interchange".to_owned());
        list.push("cie_xyz_d65_interchange".to_owned());
        list.push("default".to_owned());
        list.push("data".to_owned());
        assert(texts(list@) =~= fixed_roles());
        push_parts(&mut list, &self.roles.other, false);
        list
    }

    fn display_list(&self) -> (list: Vec<String>)
        ensures
            texts(list@) == display_names(self.displays@),
    {
        let mut list: Vec<String> = Vec::new();
        let mut i: usize = 0;
        while i < self.displays.len()
            invariant
                0 <= i <= self.displays.len(),
                list.len() == i,
                forall|k: int| 0 <= k < i ==> list[k]@ == self.displays[k].name@,
            decreases self.displays.len() - i,
        {
            list.push(self.displays[i].name.clone());
            i = i + 1;
        }
        assert(texts(list@) =~= display_names(self.displays@));
        list
    }

    fn reference_list(&self) -> (list: Vec<String>)
        ensures
            texts(list@) == self.references(),
    {
        let mut list: Vec<String> = Vec::new();
        assert(texts(list@) =~= Seq::<Seq<char>>::empty());
        push_given(&mut list, &self.roles.reference);
        push_given(&mut list, &self.roles.aces_interchange);
        push_given(&mut list, &self.roles.cie_xyz_d65_interchange);
        push_given(&mut list, &self.roles.default);
        push_given(&mut list, &self.roles.data);
        push_parts(&mut list, &self.roles.other, true);
        let ghost head = texts(list@);
        assert(head =~= given(self.roles.reference) + given(self.roles.aces_interchange) + given(
            self.roles.cie_xyz_d65_interchange,
        ) + given(self.roles.default) + given(self.roles.data) + seconds(self.roles.other@));
        let mut i: usize = 0;
        while i < self.displays.len()
            invariant
                0 <= i <= self.displays.len(),
                texts(list@) =~= head + view_spaces(self.displays@, i as int),
            decreases self.displays.len() - i,
        {
            push_parts(&mut list, &self.displays[i].views, true);
            i = i + 1;
        }
        list
    }

    /// Checks the names, and says what is wrong with the first name that
    /// anything is wrong with.
    ///
    /// The other roles are a list of pairs, so a role can stand twice
    /// among them; that too is reported as a duplicate role. Where the
    /// list is a map (`Roles::other_distinct`), a duplicate role is always
    /// one of the fixed roles named again (`lemma_duplicate_role_is_fixed`).
    pub fn validate(&self) -> (r: Result<(), ValidationError>)
        ensures
            match r {
                Ok(_) => self.verdict() == Verdict::Valid,
                Err(e) => e.verdict() == self.verdict() && self.verdict() != Verdict::Valid,
            },
    {
        match find_repeat(&self.colorspaces) {
            Some(j) => {
                return Err(ValidationError::DuplicateColorSpace(self.colorspaces[j].clone()));
            },
            None => {},
        }
        let roles = self.role_list();
        match find_repeat(&roles) {
            Some(j) => {
                return Err(ValidationError::DuplicateRole(roles[j].clone()));
            },
            None => {},
        }
        let displays = self.display_list();
        match find_repeat(&displays) {
            Some(j) => {
                return Err(ValidationError::DuplicateDisplay(displays[j].clone()));
            },
            None => {},
        }
        match find_repeat(&self.looks) {
            Some(j) => {
                return Err(ValidationError::DuplicateLook(self.looks[j].clone()));
            },
            None => {},
        }
        let refs = self.reference_list();
        match find_absent(&refs, &self.colorspaces) {
            Some(k) => Err(ValidationError::ReferenceToAbsentColorSpace(refs[k].clone())),
            None => Ok(()),
        }
    }
}

} // verus!
