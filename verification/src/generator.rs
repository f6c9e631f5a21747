//! The decisions of seed generation, as a state machine.
//!
//! Each step of generation runs the randomizer (outside this library) and reports what happened;
//! the generator decides what comes next: another step, a finished seed, or an error.

use vstd::prelude::*;
use nonempty_collections::NEVec;

verus! {

#[verifier::external_type_specification]
#[verifier::external_body]
#[verifier::reject_recursive_types(T)]
pub struct ExNEVec<T>(NEVec<T>);

#[verifier::external_type_specification]
#[verifier::external_body]
pub struct ExEmptyError(nonempty_collections::Error);

/// The patch files a non-empty vector of patches holds, in order.
pub uninterp spec fn patch_files(v: NEVec<Vec<u8>>) -> Seq<Seq<u8>>;

/// Calls `NEVec::try_from` on a vector of patch files: succeeds exactly when the vector is not
/// empty, and then holds the same files in the same order.
#[verifier::external_body]
fn nevec_try_from(v: Vec<Vec<u8>>) -> (r: Result<NEVec<Vec<u8>>, nonempty_collections::Error>)
    ensures
        r is Ok <==> v@.len() > 0,
        r matches Ok(n) ==> patch_files(n) == v@.map_values(|p: Vec<u8>| p@),
{
    NEVec::try_from(v)
}

/// Calls `NEVec::len` on a vector of patch files: the number of files it holds.
#[verifier::external_body]
pub(crate) fn num_patch_files(v: &NEVec<Vec<u8>>) -> (r: usize)
    ensures
        r == patch_files(*v).len(),
        r >= 1,
{
    v.len().get()
}

/// How many times generation is attempted before giving up.
pub const ATTEMPTS: usize = 10;

/// Why seed generation failed: an error of the randomizer, of the task it ran in, or no patch
/// files at all.
pub enum RollError<E, J> {
    Python(E),
    Task(J),
    Empty(nonempty_collections::Error),
}

/// A generated seed: its patch files, one per world, and its spoiler log.
pub struct Seed {
    pub patches: NEVec<Vec<u8>>,
    pub spoiler_log: String,
}

impl Seed {
    /// The number of patch files, one per world.
    pub fn num_patches(&self) -> (r: usize)
        ensures
            r == patch_files(self.patches).len(),
            r >= 1,
    {
        num_patch_files(&self.patches)
    }
}

/// The state of seed generation. `S` holds the settings, `P` the randomizer's own objects.
pub enum Generator<S, P> {
    /// About to resolve the settings.
    Init { settings: S },
    /// About to make attempt `attempt` (counting from 1) at randomizing.
    Generate { base_settings: P, rom: P, world_settings: Vec<P>, attempt: usize },
    /// About to patch and write the spoiler log.
    PatchAndOutput { base_settings: P, rom: P, spoiler: P },
}

/// What the randomizer reported after running a step.
pub enum Event<P, E, J> {
    /// The settings were resolved.
    Initialized { base_settings: P, rom: P, world_settings: Vec<P> },
    /// Randomizing succeeded.
    Generated { spoiler: P },
    /// Randomizing failed to place the items.
    ShuffleFailed { error: E },
    /// Patching produced these patch files and this spoiler log.
    Output { patches: Vec<Vec<u8>>, spoiler_log: String },
    /// The step failed.
    Failed { error: RollError<E, J> },
}

/// Settings that seed generation always overrides: no compressed ROM, no cosmetics log, no
/// spoiler file, and patching without output.
pub fn init_overrides() -> (r: Vec<(&'static str, bool)>)
    ensures
        r@.len() == 4,
        r@[0].0@ == "create_compressed_rom"@ && r@[0].1 == false,
        r@[1].0@ == "create_cosmetics_log"@ && r@[1].1 == false,
        r@[2].0@ == "create_spoiler"@ && r@[2].1 == false,
        r@[3].0@ == "patch_without_output"@ && r@[3].1 == true,
{
    let mut v: Vec<(&'static str, bool)> = Vec::new();
    v.push(("create_compressed_rom", false));
    v.push(("create_cosmetics_log", false));
    v.push(("create_spoiler", false));
    v.push(("patch_without_output", true));
    v
}

/// The decimal digits of `n`.
pub open spec fn decimal(n: nat) -> Seq<char>
    decreases n,
{
    if n < 10 {
        seq![digit_char(n)]
    } else {
        decimal(n / 10).push(digit_char(n % 10))
    }
}

/// The character of a decimal digit.
pub open spec fn digit_char(d: nat) -> char {
    if d == 0 {
        '0'
    } else if d == 1 {
        '1'
    } else if d == 2 {
        '2'
    } else if d == 3 {
        '3'
    } else if d == 4 {
        '4'
    } else if d == 5 {
        '5'
    } else if d == 6 {
        '6'
    } else if d == 7 {
        '7'
    } else if d == 8 {
        '8'
    } else {
        '9'
    }
}

fn digit_str(d: usize) -> (s: &'static str)
    requires
        d < 10,
    ensures
        s@ == seq![digit_char(d as nat)],
{
    proof {
        reveal_strlit("0");
        reveal_strlit("1");
        reveal_strlit("2");
        reveal_strlit("3");
        reveal_strlit("4");
        reveal_strlit("5");
        reveal_strlit("6");
        reveal_strlit("7");
        reveal_strlit("8");
        reveal_strlit("9");
    }
    if d == 0 {
        "0"
    } else if d == 1 {
        "1"
    } else if d == 2 {
        "2"
    } else if d == 3 {
        "3"
    } else if d == 4 {
        "4"
    } else if d == 5 {
        "5"
    } else if d == 6 {
        "6"
    } else if d == 7 {
        "7"
    } else if d == 8 {
        "8"
    } else {
        "9"
    }
}

/// The decimal representation of `n`.
pub fn decimal_string(n: usize) -> (s: String)
    ensures
        s@ == decimal(n as nat),
    decreases n,
{
    if n < 10 {
        String::from_str(digit_str(n))
    } else {
        let mut s = decimal_string(n / 10);
        s.append(digit_str(n % 10));
        proof {
            assert(s@ =~= decimal(n as nat));
        }
        s
    }
}

impl<S, P> Generator<S, P> {
    /// The attempt counter is within `1 ..= ATTEMPTS`.
    pub open spec fn wf(&self) -> bool {
        match self {
            Generator::Generate { attempt, .. } => 1 <= *attempt <= ATTEMPTS,
            _ => true,
        }
    }

    /// How far generation is, as a fraction with denominator `ATTEMPTS + 2`.
    pub open spec fn spec_progress(&self) -> nat {
        match self {
            Generator::Init { .. } => 0,
            Generator::Generate { attempt, .. } => *attempt as nat,
            Generator::PatchAndOutput { .. } => (ATTEMPTS + 1) as nat,
        }
    }

    /// Progress stays below `ATTEMPTS + 2`; as each step that does not end generation raises
    /// it, generation ends after at most `ATTEMPTS + 2` steps.
    pub proof fn law_progress_bounded(&self)
        requires
            self.wf(),
        ensures
            self.spec_progress() <= ATTEMPTS + 1,
    {
    }

    /// A generator that starts from `settings`.
    pub fn new(settings: S) -> (g: Self)
        ensures
            g == (Generator::<S, P>::Init { settings }),
            g.wf(),
    {
        Generator::Init { settings }
    }

    /// How far generation is: a numerator and the denominator `ATTEMPTS + 2`.
    pub fn progress(&self) -> (r: (usize, usize))
        requires
            self.wf(),
        ensures
            r.0 == self.spec_progress(),
            r.1 == ATTEMPTS + 2,
            r.0 < r.1,
    {
        match self {
            Generator::Init { .. } => (0, ATTEMPTS + 2),
            Generator::Generate { attempt, .. } => (*attempt, ATTEMPTS + 2),
            Generator::PatchAndOutput { .. } => (ATTEMPTS + 1, ATTEMPTS + 2),
        }
    }

    /// A description of the current step.
    pub fn status_text(&self) -> (r: String)
        ensures
            r@ == match self {
                Generator::Init { .. } => "Initializing seed generator"@,
                Generator::Generate { attempt, .. } => "Randomizing: attempt "@ + decimal(*attempt as nat)
                    + " of "@ + decimal(ATTEMPTS as nat),
                Generator::PatchAndOutput { .. } => "Patching"@,
            },
    {
        match self {
            Generator::Init { .. } => String::from_str("Initializing seed generator"),
            Generator::Generate { attempt, .. } => {
                let mut s = String::from_str("Randomizing: attempt ");
                let a = decimal_string(*attempt);
                s.append(a.as_str());
                s.append(" of ");
                let t = decimal_string(ATTEMPTS);
                s.append(t.as_str());
                s
            },
            Generator::PatchAndOutput { .. } => String::from_str("Patching"),
        }
    }

    /// The event reported after running the current step fits that step.
    pub open spec fn accepts<E, J>(&self, event: Event<P, E, J>) -> bool {
        match event {
            Event::Failed { .. } => true,
            Event::Initialized { .. } => self is Init,
            Event::Generated { .. } => self is Generate,
            Event::ShuffleFailed { .. } => self is Generate,
            Event::Output { .. } => self is PatchAndOutput,
        }
    }

    /// Whether the world settings' item distributions are reset before the next attempt runs:
    /// exactly when `event`, reported for the current step, is a failed shuffle that leads to
    /// another attempt (see `step`).
    pub fn resets_world_settings<E, J>(&self, event: &Event<P, E, J>) -> (r: bool)
        requires
            self.wf(),
        ensures
            r <==> {
                &&& *self matches Generator::Generate { attempt, .. }
                &&& attempt < ATTEMPTS
                &&& *event is ShuffleFailed
            },
    {
        match (self, event) {
            (Generator::Generate { attempt, .. }, Event::ShuffleFailed { .. }) => *attempt < ATTEMPTS,
            _ => false,
        }
    }

    /// The step that follows the current one after `event`, or `None` if generation then ends.
    pub open spec fn successor<E, J>(self, event: Event<P, E, J>) -> Option<Self> {
        match (self, event) {
            (_, Event::Failed { .. }) => None,
            (Generator::Init { .. }, Event::Initialized { base_settings, rom, world_settings }) => Some(
                Generator::Generate { base_settings, rom, world_settings, attempt: 1 },
            ),
            (Generator::Generate { base_settings, rom, .. }, Event::Generated { spoiler }) => Some(
                Generator::PatchAndOutput { base_settings, rom, spoiler },
            ),
            (Generator::Generate { base_settings, rom, world_settings, attempt }, Event::ShuffleFailed { .. }) => if attempt
                == ATTEMPTS {
                None
            } else {
                Some(Generator::Generate { base_settings, rom, world_settings, attempt: (attempt + 1) as usize })
            },
            (Generator::PatchAndOutput { .. }, Event::Output { .. }) => None,
            _ => Some(self),
        }
    }

    /// The step reached after `events` are reported one after another, or `None` if generation
    /// ended on the way.
    pub open spec fn state_after<E, J>(self, events: Seq<Event<P, E, J>>) -> Option<Self>
        decreases events.len(),
    {
        if events.len() == 0 {
            Some(self)
        } else {
            match self.successor(events[0]) {
                Some(g) => g.state_after(events.drop_first()),
                None => None,
            }
        }
    }

    /// Each of `events` fits the step it is reported for, until generation ends.
    pub open spec fn accepts_all<E, J>(self, events: Seq<Event<P, E, J>>) -> bool
        decreases events.len(),
    {
        events.len() == 0 || (self.accepts(events[0]) && match self.successor(events[0]) {
            Some(g) => g.accepts_all(events.drop_first()),
            None => true,
        })
    }

    /// Generation ends: once as many fitting events as `ATTEMPTS + 2` less the progress made
    /// are reported, it has produced a seed or an error. From a new generator that is at most
    /// `ATTEMPTS + 2` steps.
    pub proof fn law_generation_ends<E, J>(self, events: Seq<Event<P, E, J>>)
        requires
            self.wf(),
            self.accepts_all(events),
            events.len() + self.spec_progress() >= ATTEMPTS + 2,
        ensures
            self.state_after(events) is None,
        decreases events.len(),
    {
        if let Some(g) = self.successor(events[0]) {
            assert(g.wf() && g.spec_progress() > self.spec_progress());
            g.law_generation_ends(events.drop_first());
        }
    }

    /// Decides what follows the current step, given what running it reported: `Err` with the
    /// next step, or `Ok` with the outcome of generation. A failed step ends generation with its
    /// error. Resolved settings lead to the first attempt. A successful attempt leads to
    /// patching. A failed shuffle leads to the next attempt (whose world settings the caller
    /// resets first), or ends generation after the last attempt. Patching ends generation with a
    /// seed whose spoiler log gains a final newline, or with `Empty` if there are no patch files.
    pub fn step<E, J>(self, event: Event<P, E, J>) -> (r: Result<Result<Seed, RollError<E, J>>, Self>)
        requires
            self.wf(),
            self.accepts(event),
        ensures
            r matches Err(g) ==> g.wf() && g.spec_progress() > self.spec_progress(),
            r is Err <==> self.successor(event) is Some,
            r matches Err(g) ==> self.successor(event) == Some(g),
            match (self, event) {
                (_, Event::Failed { error }) => r == Ok::<Result<Seed, RollError<E, J>>, Self>(Err(error)),
                (Generator::Init { .. }, Event::Initialized { base_settings, rom, world_settings }) => r
                    == Err::<Result<Seed, RollError<E, J>>, Self>(
                    Generator::Generate { base_settings, rom, world_settings, attempt: 1 },
                ),
                (
                    Generator::Generate { base_settings, rom, .. },
                    Event::Generated { spoiler },
                ) => r == Err::<Result<Seed, RollError<E, J>>, Self>(
                    Generator::PatchAndOutput { base_settings, rom, spoiler },
                ),
                (
                    Generator::Generate { base_settings, rom, world_settings, attempt },
                    Event::ShuffleFailed { error },
                ) => if attempt == ATTEMPTS {
                    r == Ok::<Result<Seed, RollError<E, J>>, Self>(Err(RollError::Python(error)))
                } else {
                    r == Err::<Result<Seed, RollError<E, J>>, Self>(
                        Generator::Generate { base_settings, rom, world_settings, attempt: (attempt + 1) as usize },
                    )
                },
                (Generator::PatchAndOutput { .. }, Event::Output { patches, spoiler_log }) => if patches@.len() == 0 {
                    r matches Ok(Err(RollError::Empty(_)))
                } else {
                    r matches Ok(Ok(seed)) && patch_files(seed.patches) == patches@.map_values(|p: Vec<u8>| p@)
                        && seed.spoiler_log@ == spoiler_log@ + "\n"@
                },
                _ => false,
            },
    {
        match event {
            Event::Failed { error } => Ok(Err(error)),
            Event::Initialized { base_settings, rom, world_settings } => match self {
                Generator::Init { .. } => Err(Generator::Generate { base_settings, rom, world_settings, attempt: 1 }),
                other => Err(other),
            },
            Event::Generated { spoiler } => match self {
                Generator::Generate { base_settings, rom, .. } => Err(
                    Generator::PatchAndOutput { base_settings, rom, spoiler },
                ),
                other => Err(other),
            },
            Event::ShuffleFailed { error } => match self {
                Generator::Generate { base_settings, rom, world_settings, attempt } => {
                    if attempt == ATTEMPTS {
                        Ok(Err(RollError::Python(error)))
                    } else {
                        Err(Generator::Generate { base_settings, rom, world_settings, attempt: attempt + 1 })
                    }
                },
                other => Err(other),
            },
            Event::Output { patches, spoiler_log } => match self {
                Generator::PatchAndOutput { .. } => match nevec_try_from(patches) {
                    Err(e) => Ok(Err(RollError::Empty(e))),
                    Ok(patches) => {
                        let mut spoiler_log = spoiler_log;
                        spoiler_log.append("\n");
                        Ok(Ok(Seed { patches, spoiler_log }))
                    },
                },
                other => Err(other),
            },
        }
    }
}

} // verus!
