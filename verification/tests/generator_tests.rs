use ootr::generator::{decimal_string, init_overrides, Event, Generator, RollError, ATTEMPTS};

type G = Generator<&'static str, u32>;
type Ev = Event<u32, String, String>;

fn initialized() -> Ev {
    Event::Initialized { base_settings: 1, rom: 2, world_settings: vec![3, 4] }
}

#[test]
fn new_generator_reports_no_progress() {
    let g: G = Generator::new("settings");
    assert_eq!(g.progress(), (0, ATTEMPTS + 2));
    assert_eq!(g.status_text(), "Initializing seed generator");
}

#[test]
fn generation_walks_through_its_steps() {
    let g: G = Generator::new("settings");
    let g = match g.step(initialized()) {
        Err(g) => g,
        Ok(_) => panic!("generation ended early"),
    };
    assert_eq!(g.progress(), (1, 12));
    assert_eq!(g.status_text(), "Randomizing: attempt 1 of 10");
    let g = match g.step(Ev::Generated { spoiler: 5 }) {
        Err(g) => g,
        Ok(_) => panic!("generation ended early"),
    };
    assert_eq!(g.progress(), (11, 12));
    assert_eq!(g.status_text(), "Patching");
    match g.step(Ev::Output { patches: vec![vec![1, 2], vec![3]], spoiler_log: "log".to_string() }) {
        Ok(Ok(seed)) => {
            assert_eq!(seed.num_patches(), 2);
            assert_eq!(seed.spoiler_log, "log\n");
            let files: Vec<Vec<u8>> = seed.patches.into_iter().collect();
            assert_eq!(files, vec![vec![1, 2], vec![3]]);
        },
        _ => panic!("expected a seed"),
    }
}

#[test]
fn failed_shuffles_retry_until_the_last_attempt() {
    let mut g: G = match G::new("s").step(initialized()) {
        Err(g) => g,
        Ok(_) => panic!("generation ended early"),
    };
    for attempt in 2..=ATTEMPTS {
        g = match g.step(Ev::ShuffleFailed { error: format!("failure") }) {
            Err(g) => g,
            Ok(_) => panic!("gave up before the last attempt"),
        };
        assert_eq!(g.progress(), (attempt, 12));
        assert_eq!(g.status_text(), format!("Randomizing: attempt {attempt} of 10"));
    }
    match g.step(Ev::ShuffleFailed { error: format!("last failure") }) {
        Ok(Err(RollError::Python(e))) => assert_eq!(e, "last failure"),
        _ => panic!("expected the last shuffle error"),
    }
}

#[test]
fn a_failed_step_ends_generation() {
    let g: G = Generator::new("s");
    match g.step(Ev::Failed { error: RollError::Task(format!("join")) }) {
        Ok(Err(RollError::Task(e))) => assert_eq!(e, "join"),
        _ => panic!("expected the task error"),
    }
}

#[test]
fn no_patch_files_is_an_error() {
    let g: G = match G::new("s").step(initialized()) {
        Err(g) => g,
        Ok(_) => panic!("generation ended early"),
    };
    let g = match g.step(Ev::Generated { spoiler: 0 }) {
        Err(g) => g,
        Ok(_) => panic!("generation ended early"),
    };
    match g.step(Ev::Output { patches: vec![], spoiler_log: String::new() }) {
        Ok(Err(RollError::Empty(_))) => {},
        _ => panic!("expected an empty error"),
    }
}

#[test]
fn overrides_and_decimals() {
    assert_eq!(
        init_overrides(),
        vec![("create_compressed_rom", false), ("create_cosmetics_log", false), ("create_spoiler", false), ("patch_without_output", true)],
    );
    assert_eq!(decimal_string(0), "0");
    assert_eq!(decimal_string(10), "10");
    assert_eq!(decimal_string(4096), "4096");
}

#[test]
fn world_settings_reset_only_before_a_retry() {
    let g: G = match G::new("s").step(initialized()) {
        Err(g) => g,
        Ok(_) => panic!("generation ended early"),
    };
    assert!(g.resets_world_settings(&Ev::ShuffleFailed { error: String::new() }));
    assert!(!g.resets_world_settings(&Ev::Generated { spoiler: 0 }));
    let mut g = g;
    for _ in 2..=ATTEMPTS {
        g = match g.step(Ev::ShuffleFailed { error: String::new() }) {
            Err(g) => g,
            Ok(_) => panic!("gave up early"),
        };
    }
    assert!(!g.resets_world_settings(&Ev::ShuffleFailed { error: String::new() }));
    assert!(!G::new("s").resets_world_settings(&initialized()));
}

#[test]
fn the_longest_generation_takes_twelve_steps() {
    // initialize, fail every attempt but the last, succeed on it, then patch
    let mut g: G = Generator::new("settings");
    let mut steps = 0;
    let mut events: Vec<Ev> = vec![initialized()];
    for _ in 1..ATTEMPTS {
        events.push(Ev::ShuffleFailed { error: String::new() });
    }
    events.push(Ev::Generated { spoiler: 5 });
    events.push(Ev::Output { patches: vec![vec![1]], spoiler_log: String::new() });
    let mut outcome = None;
    for e in events {
        steps += 1;
        match g.step(e) {
            Err(next) => g = next,
            Ok(r) => {
                outcome = Some(r.is_ok());
                break;
            },
        }
    }
    assert_eq!(steps, ATTEMPTS + 2);
    assert_eq!(outcome, Some(true));
}
