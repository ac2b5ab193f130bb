//! Resolved profiles and their execution environment.
//!
//! A [`ResolvedProfile`] is the fully merged view of a profile against its
//! monitor.  Its environment is built by layering: a fixed base, then the
//! profile's own variables, then the WSI and HDR flags, each layer
//! overwriting same-named entries of the previous ones; every name on the
//! unset list is then removed, whichever layer introduced it; the result is
//! listed in lexicographic name order.

use vstd::prelude::*;
use vstd::string::StringExecFns;

use crate::assoc::{
    alist_get, alist_remove, alist_sort_keys, alist_upsert, canon, contains_key, keys_distinct,
    lemma_canon_distinct, lemma_canon_map_of, lemma_canon_sorted, lemma_map_of_dom,
    lemma_sorted_le_distinct_lt, map_of, pview, sort_strings, sorted_lt_keys,
    sorted_strings_view,
};
use crate::config::{duplicate_options, option_value_text, OptionValue, OptionValueView};
use crate::order::str_eq;

verus! {

/// A fully resolved profile, ready to be turned into a command.
#[derive(Debug)]
pub struct ResolvedProfile {
    pub name: String,
    pub monitor_name: String,
    pub binary: String,
    pub use_hdr: bool,
    pub use_wsi: bool,
    /// Merged compositor options: monitor-derived base overlaid with the
    /// profile's own options.
    pub options: Vec<(String, OptionValue)>,
    /// The profile's own environment variables, as text.
    pub user_env: Vec<(String, String)>,
    /// Names removed from the final environment, in the order the profile
    /// lists them; repeats are harmless.
    pub unset_vars: Vec<String>,
}

/// Mathematical value of a [`ResolvedProfile`].
pub struct ResolvedProfileView {
    pub name: Seq<char>,
    pub monitor_name: Seq<char>,
    pub binary: Seq<char>,
    pub use_hdr: bool,
    pub use_wsi: bool,
    pub options: Seq<(Seq<char>, OptionValueView)>,
    pub user_env: Seq<(Seq<char>, Seq<char>)>,
    pub unset_vars: Seq<Seq<char>>,
}

impl View for ResolvedProfile {
    type V = ResolvedProfileView;

    open spec fn view(&self) -> ResolvedProfileView {
        ResolvedProfileView {
            name: self.name@,
            monitor_name: self.monitor_name@,
            binary: self.binary@,
            use_hdr: self.use_hdr,
            use_wsi: self.use_wsi,
            options: pview(self.options@),
            user_env: pview(self.user_env@),
            unset_vars: self.unset_vars@.map_values(|s: String| s@),
        }
    }
}

/// The base environment every launch starts from.
pub open spec fn base_env_view() -> Seq<(Seq<char>, Seq<char>)> {
    seq![
        ("AMD_VULKAN_ICD"@, "RADV"@),
        ("DISABLE_LAYER_AMD_SWITCHABLE_GRAPHICS_1"@, "1"@),
        ("DISABLE_LAYER_NV_OPTIMUS_1"@, "1"@),
        ("GAMESCOPE_WAYLAND_DISPLAY"@, "gamescope-0"@),
        ("PROTON_ADD_CONFIG"@, "sdlinput,wayland"@),
        ("PROTON_ENABLE_WAYLAND"@, "1"@),
        ("RADV_PERFTEST"@, "aco"@),
        ("SDL_VIDEODRIVER"@, "wayland"@),
    ]
}

/// Removes each named key from the map, in order.
pub open spec fn remove_names(m: Map<Seq<char>, Seq<char>>, names: Seq<Seq<char>>) -> Map<
    Seq<char>,
    Seq<char>,
>
    decreases names.len(),
{
    if names.len() == 0 {
        m
    } else {
        remove_names(m, names.drop_last()).remove(names.last())
    }
}

/// A removed name stays removed, whatever is removed after it.
pub proof fn lemma_remove_names_absent(m: Map<Seq<char>, Seq<char>>, names: Seq<Seq<char>>, i: int)
    requires
        0 <= i < names.len(),
    ensures
        !remove_names(m, names).contains_key(names[i]),
    decreases names.len(),
{
    if i < names.len() - 1 {
        let t = names.drop_last();
        assert(t[i] == names[i]);
        lemma_remove_names_absent(m, t, i);
    }
}

/// The environment before the unset list is applied: base, overwritten by
/// the profile's variables, then the WSI and HDR flags.
pub open spec fn env_layered(rp: ResolvedProfileView) -> Map<Seq<char>, Seq<char>> {
    let with_user = map_of(base_env_view() + rp.user_env);
    let with_wsi = if rp.use_wsi {
        with_user.insert("ENABLE_GAMESCOPE_WSI"@, "1"@)
    } else {
        with_user
    };
    if rp.use_hdr {
        with_wsi.insert("DXVK_HDR"@, "1"@).insert("ENABLE_HDR_WSI"@, "1"@).insert(
            "PROTON_ENABLE_HDR"@,
            "1"@,
        )
    } else {
        with_wsi
    }
}

/// The complete environment of a resolved profile: the layered environment
/// with every unset name removed.
pub open spec fn env_map(rp: ResolvedProfileView) -> Map<Seq<char>, Seq<char>> {
    remove_names(env_layered(rp), rp.unset_vars)
}

/// The HDR workaround is needed exactly under a Wayland backend with both
/// WSI and HDR enabled.
pub open spec fn workaround_needed(rp: ResolvedProfileView) -> bool {
    &&& map_of(rp.options).contains_key("backend"@)
    &&& option_value_text(map_of(rp.options)["backend"@]) == "wayland"@
    &&& rp.use_wsi
    &&& rp.use_hdr
}

impl ResolvedProfile {
    /// Builds the complete environment listing: the layered environment
    /// minus the unset names, sorted by variable name.
    ///
    /// A name on the unset list never appears in the result, whichever
    /// layer introduced it.
    pub fn environment(&self) -> (r: Vec<(String, String)>)
        ensures
            map_of(pview(r@)) == env_map(self@),
            sorted_lt_keys(pview(r@)),
            forall|i: int|
                0 <= i < self@.unset_vars.len() ==> !contains_key(
                    pview(r@),
                    #[trigger] self@.unset_vars[i],
                ),
    {
        let mut env: Vec<(String, String)> = Vec::new();
        env.push(("AMD_VULKAN_ICD".to_owned(), "RADV".to_owned()));
        env.push(("DISABLE_LAYER_AMD_SWITCHABLE_GRAPHICS_1".to_owned(), "1".to_owned()));
        env.push(("DISABLE_LAYER_NV_OPTIMUS_1".to_owned(), "1".to_owned()));
        env.push(("GAMESCOPE_WAYLAND_DISPLAY".to_owned(), "gamescope-0".to_owned()));
        env.push(("PROTON_ADD_CONFIG".to_owned(), "sdlinput,wayland".to_owned()));
        env.push(("PROTON_ENABLE_WAYLAND".to_owned(), "1".to_owned()));
        env.push(("RADV_PERFTEST".to_owned(), "aco".to_owned()));
        env.push(("SDL_VIDEODRIVER".to_owned(), "wayland".to_owned()));
        proof {
            assert(pview(env@) =~= base_env_view());
            lemma_base_env_distinct();
        }
        let ghost uview = pview(self.user_env@);
        let mut i: usize = 0;
        while i < self.user_env.len()
            invariant
                i <= self.user_env.len(),
                uview == pview(self.user_env@),
                map_of(pview(env@)) == map_of(base_env_view() + uview.take(i as int)),
                keys_distinct(pview(env@)),
            decreases self.user_env.len() - i,
        {
            alist_upsert(&mut env, self.user_env[i].0.clone(), self.user_env[i].1.clone());
            proof {
                let b0 = base_env_view() + uview.take(i as int);
                let b1 = base_env_view() + uview.take(i + 1);
                assert(b1.drop_last() =~= b0);
                assert(b1.last() == uview[i as int]);
                assert(uview[i as int] == (self.user_env@[i as int].0@,
                self.user_env@[i as int].1@));
            }
            i = i + 1;
        }
        proof {
            assert(base_env_view() + uview.take(uview.len() as int) =~= base_env_view() + uview);
        }
        if self.use_wsi {
            alist_upsert(&mut env, "ENABLE_GAMESCOPE_WSI".to_owned(), "1".to_owned());
        }
        if self.use_hdr {
            alist_upsert(&mut env, "DXVK_HDR".to_owned(), "1".to_owned());
            alist_upsert(&mut env, "ENABLE_HDR_WSI".to_owned(), "1".to_owned());
            alist_upsert(&mut env, "PROTON_ENABLE_HDR".to_owned(), "1".to_owned());
        }
        proof {
            assert(map_of(pview(env@)) == env_layered(self@));
        }
        let ghost nview = self@.unset_vars;
        let mut j: usize = 0;
        while j < self.unset_vars.len()
            invariant
                j <= self.unset_vars.len(),
                nview == self@.unset_vars,
                map_of(pview(env@)) == remove_names(env_layered(self@), nview.take(j as int)),
                keys_distinct(pview(env@)),
            decreases self.unset_vars.len() - j,
        {
            alist_remove(&mut env, self.unset_vars[j].as_str());
            proof {
                assert(nview.take(j + 1).drop_last() =~= nview.take(j as int));
                assert(nview.take(j + 1).last() == nview[j as int]);
                assert(nview[j as int] == self.unset_vars@[j as int]@);
            }
            j = j + 1;
        }
        proof {
            assert(nview.take(nview.len() as int) =~= nview);
        }
        let ghost before_sort = pview(env@);
        let r = alist_sort_keys(env);
        proof {
            lemma_canon_map_of(before_sort);
            lemma_canon_sorted(before_sort);
            lemma_canon_distinct(before_sort);
            lemma_sorted_le_distinct_lt(pview(r@));
            lemma_map_of_dom(pview(r@));
            assert forall|i2: int| 0 <= i2 < nview.len() implies !contains_key(
                pview(r@),
                #[trigger] nview[i2],
            ) by {
                lemma_remove_names_absent(env_layered(self@), nview, i2);
            }
        }
        r
    }

    /// The merged options in lexicographic key order, as shown to the
    /// user and on the command line.
    pub fn sorted_options(&self) -> (r: Vec<(String, OptionValue)>)
        ensures
            pview(r@) == canon(pview(self.options@)),
    {
        alist_sort_keys(duplicate_options(&self.options))
    }

    /// The unset names in lexicographic order, as shown to the user.
    pub fn sorted_unset_vars(&self) -> (r: Vec<String>)
        ensures
            r@.map_values(|s: String| s@) == sorted_strings_view(self@.unset_vars),
    {
        sort_strings(crate::assoc::clone_strings(&self.unset_vars))
    }

    /// Whether the child process needs the HDR workaround variable: true
    /// exactly when the resolved `backend` option reads `wayland` and both
    /// WSI and HDR are enabled.
    pub fn needs_hdr_workaround(&self) -> (r: bool)
        ensures
            r == workaround_needed(self@),
    {
        let backend_is_wayland = match alist_get(&self.options, "backend") {
            Some(v) => {
                let text = v.display_string();
                str_eq(text.as_str(), "wayland")
            },
            None => false,
        };
        backend_is_wayland && self.use_wsi && self.use_hdr
    }
}

/// The keys of the base environment are distinct.
pub proof fn lemma_base_env_distinct()
    ensures
        keys_distinct(base_env_view()),
{
    reveal_strlit("AMD_VULKAN_ICD");
    reveal_strlit("DISABLE_LAYER_AMD_SWITCHABLE_GRAPHICS_1");
    reveal_strlit("DISABLE_LAYER_NV_OPTIMUS_1");
    reveal_strlit("GAMESCOPE_WAYLAND_DISPLAY");
    reveal_strlit("PROTON_ADD_CONFIG");
    reveal_strlit("PROTON_ENABLE_WAYLAND");
    reveal_strlit("RADV_PERFTEST");
    reveal_strlit("SDL_VIDEODRIVER");
    assert("AMD_VULKAN_ICD"@.len() == 14);
    assert("DISABLE_LAYER_AMD_SWITCHABLE_GRAPHICS_1"@.len() == 39);
    assert("DISABLE_LAYER_NV_OPTIMUS_1"@.len() == 26);
    assert("GAMESCOPE_WAYLAND_DISPLAY"@.len() == 25);
    assert("PROTON_ADD_CONFIG"@.len() == 17);
    assert("PROTON_ENABLE_WAYLAND"@.len() == 21);
    assert("RADV_PERFTEST"@.len() == 13);
    assert("SDL_VIDEODRIVER"@.len() == 15);
}

/// Law: the environment listing is determined by the resolved profile.
/// Any two listings that are sorted by name and denote the profile's
/// environment map are the same sequence, so `environment` is a pure
/// function of its receiver and repeated calls agree.
pub proof fn lemma_environment_deterministic(
    rp: ResolvedProfileView,
    e1: Seq<(Seq<char>, Seq<char>)>,
    e2: Seq<(Seq<char>, Seq<char>)>,
)
    requires
        sorted_lt_keys(e1),
        sorted_lt_keys(e2),
        map_of(e1) == env_map(rp),
        map_of(e2) == env_map(rp),
    ensures
        e1 == e2,
{
    crate::assoc::lemma_sorted_map_unique(e1, e2);
}

} // verus!
