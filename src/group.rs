//! The scope stack: one frame per open group, each with its own category
//! assignments and macro bindings, looked up from the innermost frame out.
use vstd::prelude::*;
use crate::engine::{macro_effect, TexState};
use crate::errors::{Error, ErrorKind};
use crate::macros::{macro_name, Macro, MacroMap, MacroView};
use crate::parser::lexer::{ascii_defaults, default_category, CharacterCategory, CharacterMap};

verus! {

/// The value of one frame.
pub struct FrameView {
    pub categories: Map<char, CharacterCategory>,
    pub macros: Map<Seq<char>, MacroView>,
    pub global_defs: bool,
}

/// The category that the frames give `c`, searching from the last (innermost)
/// frame outwards; `Other` where none assigns one.
pub open spec fn category_in(fs: Seq<FrameView>, c: char) -> CharacterCategory
    decreases fs.len(),
{
    if fs.len() == 0 {
        CharacterCategory::Other
    } else if fs.last().categories.contains_key(c) {
        fs.last().categories[c]
    } else {
        category_in(fs.drop_last(), c)
    }
}

/// The macro that the frames bind to `name`, searching from the innermost
/// frame outwards.
pub open spec fn macro_in(fs: Seq<FrameView>, name: Seq<char>) -> Option<MacroView>
    decreases fs.len(),
{
    if fs.len() == 0 {
        None
    } else if fs.last().macros.contains_key(name) {
        Some(fs.last().macros[name])
    } else {
        macro_in(fs.drop_last(), name)
    }
}

/// The frame that a fresh engine starts with.
pub open spec fn initial_frame() -> FrameView {
    FrameView {
        categories: ascii_defaults(),
        macros: Map::empty().insert(macro_name(MacroView::Def), MacroView::Def),
        global_defs: false,
    }
}

/// A frame opened by a group: no assignments of its own.
pub open spec fn empty_frame(global_defs: bool) -> FrameView {
    FrameView { categories: Map::empty(), macros: Map::empty(), global_defs }
}

/// Index of the frame that a write lands in: the outermost for a global
/// write, else the innermost.
pub open spec fn write_target(fs: Seq<FrameView>, global: bool) -> int {
    if global {
        0
    } else {
        fs.len() - 1
    }
}

/// `fs` after category `cat` is assigned to `chr` by a write.
pub open spec fn with_category(fs: Seq<FrameView>, chr: char, cat: CharacterCategory, global: bool) -> Seq<FrameView> {
    let i = write_target(fs, global);
    fs.update(i, FrameView { categories: fs[i].categories.insert(chr, cat), ..fs[i] })
}

/// `fs` after macro `m` is bound under its name by a write.
pub open spec fn with_macro(fs: Seq<FrameView>, m: MacroView, global: bool) -> Seq<FrameView> {
    let i = write_target(fs, global);
    fs.update(i, FrameView { macros: fs[i].macros.insert(macro_name(m), m), ..fs[i] })
}

/// Characters that no frame reassigned keep their default category: the
/// outermost frame holds the default entries for ASCII and none above, and
/// the frames above it hold no entry for `c`.
pub proof fn lemma_unassigned_category_is_default(fs: Seq<FrameView>, c: char)
    requires
        fs.len() >= 1,
        fs[0].categories.contains_key(c) <==> ascii_defaults().contains_key(c),
        fs[0].categories.contains_key(c) ==> fs[0].categories[c] == default_category(c),
        forall|i: int| 1 <= i < fs.len() ==> !(#[trigger] fs[i].categories).contains_key(c),
    ensures
        category_in(fs, c) == default_category(c),
    decreases fs.len(),
{
    if fs.len() > 1 {
        assert(!fs.last().categories.contains_key(c));
        assert(fs.drop_last()[0] == fs[0]);
        lemma_unassigned_category_is_default(fs.drop_last(), c);
    } else if fs[0].categories.contains_key(c) {
        assert(fs.last() == fs[0]);
    } else {
        assert(fs.drop_last().len() == 0);
        assert((c as u32) >= 128);
        assert(c != '\\' && c != '{' && c != '}' && c != '$' && c != '&' && c != '\n' && c != '#');
        assert(c != '^' && c != '_' && c != '\0' && c != ' ' && c != '~' && c != '%' && c != '\x7f');
        assert(default_category(c) == CharacterCategory::Other);
        assert(category_in(fs.drop_last(), c) == CharacterCategory::Other);
    }
}

/// A category written locally in a pushed frame is gone once that frame is
/// popped; written globally, it lands in the outermost frame, which then
/// gives it whatever frames are popped.
pub proof fn lemma_category_scope(fs: Seq<FrameView>, g: bool, c: char, k: CharacterCategory)
    requires
        fs.len() >= 1,
    ensures
        with_category(fs.push(empty_frame(g)), c, k, false).drop_last() == fs,
        category_in(with_category(fs.push(empty_frame(g)), c, k, false).drop_last(), c) == category_in(fs, c),
        category_in(with_category(fs.push(empty_frame(g)), c, k, true).take(1), c) == k,
        with_category(fs.push(empty_frame(g)), c, k, true).drop_last()[0].categories[c] == k,
{
    let local = with_category(fs.push(empty_frame(g)), c, k, false);
    assert(local.drop_last() =~= fs);
    let global = with_category(fs.push(empty_frame(g)), c, k, true);
    assert(global.take(1).drop_last().len() == 0);
    assert(global.take(1).last() == global[0]);
}

/// `fs` after the local category writes `ws`, in order.
pub open spec fn local_category_writes(fs: Seq<FrameView>, ws: Seq<(char, CharacterCategory)>) -> Seq<FrameView>
    decreases ws.len(),
{
    if ws.len() == 0 {
        fs
    } else {
        with_category(local_category_writes(fs, ws.drop_last()), ws.last().0, ws.last().1, false)
    }
}

/// Any number of local category writes in a pushed frame vanish when that
/// frame is popped: every character has the category it had before.
pub proof fn lemma_local_writes_vanish(fs: Seq<FrameView>, g: bool, ws: Seq<(char, CharacterCategory)>)
    requires
        fs.len() >= 1,
    ensures
        local_category_writes(fs.push(empty_frame(g)), ws).len() == fs.len() + 1,
        local_category_writes(fs.push(empty_frame(g)), ws).drop_last() == fs,
        forall|c: char| #[trigger] category_in(local_category_writes(fs.push(empty_frame(g)), ws).drop_last(), c)
            == category_in(fs, c),
    decreases ws.len(),
{
    if ws.len() == 0 {
        assert(fs.push(empty_frame(g)).drop_last() =~= fs);
    } else {
        lemma_local_writes_vanish(fs, g, ws.drop_last());
        let before = local_category_writes(fs.push(empty_frame(g)), ws.drop_last());
        assert(with_category(before, ws.last().0, ws.last().1, false).drop_last() =~= before.drop_last());
    }
}

/// A local write changes no frame below the innermost.
pub proof fn lemma_local_write_keeps_below(fs: Seq<FrameView>, c: char, k: CharacterCategory, j: int)
    requires
        0 <= j < fs.len(),
    ensures
        with_category(fs, c, k, false).len() == fs.len(),
        with_category(fs, c, k, false).take(j) == fs.take(j),
{
    assert(with_category(fs, c, k, false).take(j) =~= fs.take(j));
}

/// Closing `n` frames above the frames `fs`, whatever was opened and written
/// above them, gives back exactly `fs`.
pub proof fn lemma_pop_to(fs: Seq<FrameView>, fs2: Seq<FrameView>, n: nat)
    requires
        fs2.len() == fs.len() + n,
        fs2.take(fs.len() as int) == fs,
    ensures
        pop_n(fs2, n) == fs,
    decreases n,
{
    if n == 0 {
        assert(fs2 =~= fs2.take(fs.len() as int));
    } else {
        assert(fs2.drop_last().take(fs.len() as int) =~= fs2.take(fs.len() as int));
        lemma_pop_to(fs, fs2.drop_last(), (n - 1) as nat);
    }
}

/// `fs` with `n` groups opened, each empty and with the flag of the frame
/// below.
pub open spec fn push_n(fs: Seq<FrameView>, n: nat) -> Seq<FrameView>
    decreases n,
{
    if n == 0 {
        fs
    } else {
        let below = push_n(fs, (n - 1) as nat);
        below.push(empty_frame(below.last().global_defs))
    }
}

/// `fs` with its `n` innermost frames closed.
pub open spec fn pop_n(fs: Seq<FrameView>, n: nat) -> Seq<FrameView>
    decreases n,
{
    if n == 0 {
        fs
    } else {
        pop_n(fs.drop_last(), (n - 1) as nat)
    }
}

/// Opening `n` groups above `fs` and then closing `n` gives back exactly
/// `fs`; one more close would find only the frames of `fs` below.
pub proof fn lemma_group_balance(fs: Seq<FrameView>, n: nat)
    ensures
        push_n(fs, n).len() == fs.len() + n,
        push_n(fs, n).take(fs.len() as int) == fs,
        pop_n(push_n(fs, n), n) == fs,
    decreases n,
{
    if n > 0 {
        lemma_group_balance(fs, (n - 1) as nat);
        let below = push_n(fs, (n - 1) as nat);
        assert(push_n(fs, n).take(fs.len() as int) =~= below.take(fs.len() as int));
        lemma_pop_push_n(fs, n);
    } else {
        assert(fs.take(fs.len() as int) =~= fs);
    }
}

/// Closing `n` groups undoes opening them.
pub proof fn lemma_pop_push_n(fs: Seq<FrameView>, n: nat)
    ensures
        pop_n(push_n(fs, n), n) == fs,
    decreases n,
{
    if n > 0 {
        let below = push_n(fs, (n - 1) as nat);
        assert(push_n(fs, n).drop_last() =~= below);
        lemma_pop_push_n(fs, (n - 1) as nat);
    }
}

/// A macro bound by a write is what a lookup of its name then finds, with
/// its pattern, its replacement and a parameter count equal to the number
/// of parameter tokens in the pattern, where the write was local, or where
/// no frame above the outermost binds that name.
pub proof fn lemma_definition_round_trip(fs: Seq<FrameView>, u: crate::macros::UserDefinedMacroView, global: bool)
    requires
        fs.len() >= 1,
        crate::macros::definition_shape(u),
        global ==> forall|i: int| 1 <= i < fs.len() ==> !(#[trigger] fs[i].macros).contains_key(u.name),
    ensures
        macro_in(with_macro(fs, MacroView::UserDefined(u), global), u.name) == Some(MacroView::UserDefined(u)),
        u.parameter_count == crate::macros::count_parameters(u.parameters),
{
    let m = MacroView::UserDefined(u);
    let fs2 = with_macro(fs, m, global);
    assert(macro_name(m) == u.name);
    if global {
        lemma_found_at_root(fs2, u.name);
    }
}

proof fn lemma_found_at_root(fs: Seq<FrameView>, name: Seq<char>)
    requires
        fs.len() >= 1,
        fs[0].macros.contains_key(name),
        forall|i: int| 1 <= i < fs.len() ==> !(#[trigger] fs[i].macros).contains_key(name),
    ensures
        macro_in(fs, name) == Some(fs[0].macros[name]),
    decreases fs.len(),
{
    if fs.len() > 1 {
        assert(!fs.last().macros.contains_key(name));
        lemma_found_at_root(fs.drop_last(), name);
    }
}

/// The values of a sequence of frames.
spec fn frame_views(s: Seq<Frame>) -> Seq<FrameView> {
    s.map_values(|f: Frame| f@)
}

#[derive(Debug)]
struct Frame {
    character_map: CharacterMap,
    macro_map: MacroMap,
    global_defs: bool,
}

impl Clone for Frame {
    fn clone(&self) -> (r: Self)
        ensures
            r@ == self@,
    {
        Frame {
            character_map: self.character_map.clone(),
            macro_map: self.macro_map.clone(),
            global_defs: self.global_defs,
        }
    }
}

impl View for Frame {
    type V = FrameView;

    closed spec fn view(&self) -> FrameView {
        FrameView {
            categories: self.character_map@,
            macros: self.macro_map@,
            global_defs: self.global_defs,
        }
    }
}

/// The stack of frames: the outermost one and those opened above it.
#[derive(Debug)]
pub struct TexGroupState {
    root: Frame,
    frames: Vec<Frame>,
}

impl View for TexGroupState {
    /// The frames, outermost first; never empty.
    type V = Seq<FrameView>;

    closed spec fn view(&self) -> Seq<FrameView> {
        seq![self.root@] + self.frames@.map_values(|f: Frame| f@)
    }
}

impl Clone for TexGroupState {
    fn clone(&self) -> (r: Self)
        ensures
            r@ == self@,
    {
        let mut frames: Vec<Frame> = Vec::new();
        let mut i: usize = 0;
        while i < self.frames.len()
            invariant
                i <= self.frames@.len(),
                frames@.len() == i,
                frame_views(frames@) == frame_views(self.frames@.subrange(0, i as int)),
            decreases self.frames@.len() - i,
        {
            let ghost prev = frames@;
            frames.push(self.frames[i].clone());
            assert forall|j: int| 0 <= j <= i implies #[trigger] frame_views(frames@)[j]
                == frame_views(self.frames@.subrange(0, i + 1))[j] by {
                if j < i {
                    assert(frames@[j] == prev[j]);
                    assert(frame_views(prev)[j] == frame_views(self.frames@.subrange(0, i as int))[j]);
                }
            }
            i = i + 1;
            assert(frame_views(frames@) =~= frame_views(self.frames@.subrange(0, i as int)));
        }
        assert(self.frames@.subrange(0, i as int) =~= self.frames@);
        let r = TexGroupState { root: self.root.clone(), frames };
        assert(r@ =~= self@);
        r
    }
}

impl TexGroupState {
    pub proof fn lemma_nonempty(&self)
        ensures
            self@.len() >= 1,
    {
    }

    pub fn initial() -> (r: Self)
        ensures
            r@ == seq![initial_frame()],
    {
        let r = TexGroupState {
            root: Frame {
                character_map: CharacterMap::new_and_init(),
                macro_map: MacroMap::new_and_init(),
                global_defs: false,
            },
            frames: Vec::new(),
        };
        assert(r@ =~= seq![initial_frame()]);
        r
    }

    /// Opens a frame in place; it starts with the global-definitions flag of
    /// the frame below.
    pub fn push_frame(&mut self)
        ensures
            final(self)@ == old(self)@.push(empty_frame(old(self)@.last().global_defs)),
    {
        let g = self.get_global_defs();
        let f = Frame { character_map: CharacterMap::new(), macro_map: MacroMap::new(), global_defs: g };
        self.frames.push(f);
        assert(self@ =~= old(self)@.push(empty_frame(g)));
    }

    /// Closes the innermost frame in place; false, and nothing changed, if
    /// only the outermost is open.
    pub fn pop_frame(&mut self) -> (r: bool)
        ensures
            old(self)@.len() > 1 ==> r && final(self)@ == old(self)@.drop_last(),
            old(self)@.len() == 1 ==> !r && final(self)@ == old(self)@,
    {
        match self.frames.pop() {
            Some(_) => {
                assert(self@ =~= old(self)@.drop_last());
                true
            },
            None => {
                assert(self@ =~= old(self)@);
                false
            },
        }
    }

    /// Opens a frame; it starts with the global-definitions flag of the
    /// frame below.
    pub fn child(self) -> (r: Self)
        ensures
            r@ == self@.push(empty_frame(self@.last().global_defs)),
    {
        let mut s = self;
        s.push_frame();
        s
    }

    /// Closes the innermost frame; `None` if only the outermost is open.
    pub fn pop(self) -> (r: Option<Self>)
        ensures
            self@.len() > 1 ==> r is Some && r->Some_0@ == self@.drop_last(),
            self@.len() == 1 ==> r is None,
    {
        let mut s = self;
        if s.pop_frame() {
            Some(s)
        } else {
            None
        }
    }

    pub fn get_category(&self, c: char) -> (r: CharacterCategory)
        ensures
            r == category_in(self@, c),
    {
        let ghost fs = self@;
        assert(fs.subrange(0, fs.len() as int) =~= fs);
        let mut k: usize = self.frames.len();
        while k > 0
            invariant
                k <= self.frames@.len(),
                fs == self@,
                fs.len() == self.frames@.len() + 1,
                forall|j: int| 0 <= j < self.frames@.len() ==> fs[j + 1] == #[trigger] self.frames@[j]@,
                category_in(fs, c) == category_in(fs.subrange(0, k + 1), c),
            decreases k,
        {
            match self.frames[k - 1].character_map.get(c) {
                Some(cat) => {
                    assert(fs.subrange(0, k + 1).last() == fs[k as int]);
                    return cat;
                },
                None => {
                    assert(fs.subrange(0, k + 1).drop_last() =~= fs.subrange(0, k as int));
                },
            }
            k = k - 1;
        }
        match self.root.character_map.get(c) {
            Some(cat) => {
                assert(fs.subrange(0, 1).last() == self.root@);
                assert(category_in(fs.subrange(0, 1), c) == cat);
                cat
            },
            None => {
                assert(fs.subrange(0, 1).drop_last() =~= Seq::<FrameView>::empty());
                assert(fs.subrange(0, 1).last() == self.root@);
                assert(category_in(fs.subrange(0, 1).drop_last(), c) == CharacterCategory::Other);
                assert(category_in(fs.subrange(0, 1), c) == CharacterCategory::Other);
                assert(category_in(fs, c) == CharacterCategory::Other);
                CharacterCategory::Other
            },
        }
    }

    pub fn get_macro(&self, s: &String) -> (r: Option<&Macro>)
        ensures
            match r {
                Some(m) => macro_in(self@, s@) == Some(m@),
                None => macro_in(self@, s@) is None,
            },
    {
        let ghost fs = self@;
        assert(fs.subrange(0, fs.len() as int) =~= fs);
        let mut k: usize = self.frames.len();
        while k > 0
            invariant
                k <= self.frames@.len(),
                fs == self@,
                fs.len() == self.frames@.len() + 1,
                forall|j: int| 0 <= j < self.frames@.len() ==> fs[j + 1] == #[trigger] self.frames@[j]@,
                macro_in(fs, s@) == macro_in(fs.subrange(0, k + 1), s@),
            decreases k,
        {
            match self.frames[k - 1].macro_map.get(s) {
                Some(m) => {
                    assert(fs.subrange(0, k + 1).last() == fs[k as int]);
                    return Some(m);
                },
                None => {
                    assert(fs.subrange(0, k + 1).drop_last() =~= fs.subrange(0, k as int));
                },
            }
            k = k - 1;
        }
        match self.root.macro_map.get(s) {
            Some(m) => {
                assert(fs.subrange(0, 1).last() == self.root@);
                assert(macro_in(fs.subrange(0, 1), s@) == Some(m@));
                assert(macro_in(fs, s@) == Some(m@));
                Some(m)
            },
            None => {
                assert(fs.subrange(0, 1).drop_last() =~= Seq::<FrameView>::empty());
                assert(fs.subrange(0, 1).last() == self.root@);
                assert(macro_in(fs.subrange(0, 1).drop_last(), s@) is None);
                assert(macro_in(fs.subrange(0, 1), s@) is None);
                None
            },
        }
    }

    pub fn get_global_defs(&self) -> (r: bool)
        ensures
            r == self@.last().global_defs,
    {
        match self.frames.last() {
            Some(f) => f.global_defs,
            None => self.root.global_defs,
        }
    }

    pub fn set_global_defs(&mut self, b: bool)
        ensures
            final(self)@ == old(self)@.update(
                old(self)@.len() - 1,
                FrameView { global_defs: b, ..old(self)@.last() },
            ),
    {
        match self.frames.pop() {
            Some(mut f) => {
                f.global_defs = b;
                self.frames.push(f);
            },
            None => {
                self.root.global_defs = b;
            },
        }
        assert(self@ =~= old(self)@.update(
            old(self)@.len() - 1,
            FrameView { global_defs: b, ..old(self)@.last() },
        ));
    }

    pub fn set_category_with_global(&mut self, chr: char, cat: CharacterCategory, global: bool)
        ensures
            final(self)@ == with_category(old(self)@, chr, cat, global),
    {
        if !global {
            match self.frames.pop() {
                Some(mut f) => {
                    f.character_map.set(chr, cat);
                    self.frames.push(f);
                    assert(self@ =~= with_category(old(self)@, chr, cat, global));
                    return;
                },
                None => {},
            }
        }
        self.root.character_map.set(chr, cat);
        assert(self@ =~= with_category(old(self)@, chr, cat, global));
    }

    pub fn set_macro_with_global(&mut self, mcro: Macro, global: bool)
        ensures
            final(self)@ == with_macro(old(self)@, mcro@, global),
    {
        let name = mcro.name();
        if !global {
            match self.frames.pop() {
                Some(mut f) => {
                    f.macro_map.set(name, mcro);
                    self.frames.push(f);
                    assert(self@ =~= with_macro(old(self)@, mcro@, global));
                    return;
                },
                None => {},
            }
        }
        self.root.macro_map.set(name, mcro);
        assert(self@ =~= with_macro(old(self)@, mcro@, global));
    }

    /// Assigns a category; the write is global if the innermost frame says so.
    pub fn set_category(&mut self, chr: char, cat: CharacterCategory)
        ensures
            final(self)@ == with_category(old(self)@, chr, cat, old(self)@.last().global_defs),
    {
        let g = self.get_global_defs();
        self.set_category_with_global(chr, cat, g);
    }

    /// Binds a macro under its name; the write is global if the innermost
    /// frame says so.
    pub fn set_macro(&mut self, mcro: Macro)
        ensures
            final(self)@ == with_macro(old(self)@, mcro@, old(self)@.last().global_defs),
    {
        let g = self.get_global_defs();
        self.set_macro_with_global(mcro, g);
    }

    /// Runs, on `state`, the macro that these frames bind to `s`; fails with
    /// `UnknownMacroError` where none is bound.
    pub fn run_macro(&self, s: &String, state: &mut TexState) -> (r: Result<(), Error>)
        ensures
            match macro_in(self@, s@) {
                None => r is Err && r->Err_0.kind == ErrorKind::UnknownMacroError && *final(state) == *old(state),
                Some(m) => macro_effect(*final(state), *old(state), m, r),
            },
    {
        match self.get_macro(s) {
            Some(m) => m.run(state),
            None => Err(Error::new(ErrorKind::UnknownMacroError, s.clone())),
        }
    }
}

} // verus!
