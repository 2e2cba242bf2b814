//! The machine benchmarks run on: its clock, its CPUs and their reservation.

use scaling::machine::{clock_ns, elapsed_ns, khz_moved, read_khz, Probes, Reading};
use scaling::mask::affinity_mask;
use scaling::quiet::{
    cpus_that_fit, current_affinity, format_cpu_list, parse_cpu_list, pin_if_requested,
    reserved_cpus, status, Status,
};
use scaling::reserve::{
    exit_code_of, is_numbered, load_original_state, moved_note, plan_reservation, plan_restoration,
    ready_note, request, restored_note, save_original_state, split_cpus, status_code, steered_note,
    Request, ReserveError, Settings, Step,
};

#[test]
fn the_frequency_tolerance_ignores_jitter_and_catches_throttling() {
    // Nothing read at all is not evidence of steadiness.
    assert!(!khz_moved(0, 0));
    // Bit-identical readings, the ordinary quiesced case.
    assert!(!khz_moved(1_600_000, 1_600_000));
    // The wander of a core pinned at 1.6 GHz, about 0.004%.
    assert!(!khz_moved(1_599_983, 1_600_048));
    // Half a percent: real, but below what the default accuracy target
    // would notice.
    assert!(!khz_moved(1_600_000, 1_608_000));
    // Two percent, and a core that spent part of the run at 900 MHz and the
    // rest at 1.6 GHz.
    assert!(khz_moved(1_600_000, 1_632_000));
    assert!(khz_moved(925_779, 1_600_032));
}

#[test]
fn the_frequency_tolerance_is_one_percent() {
    assert!(!khz_moved(1_000_000, 1_010_000));
    assert!(khz_moved(1_000_000, 1_010_001));
}

#[test]
fn probes_remember_what_moved() {
    let mut probes = Probes::new();
    assert!(!probes.clock_moved(), "nothing has been read");
    assert_eq!(probes.note(3, 1_600_000), Reading { cpu: 3, khz: 1_600_000 });
    assert!(!probes.clock_moved());
    probes.note(3, 1_608_000);
    assert!(!probes.clock_moved(), "jitter");
    probes.note(3, 1_500_000);
    assert!(probes.clock_moved(), "throttled");
    probes.forget();
    assert!(!probes.clock_moved());
    probes.note(3, 1_500_000);
    probes.note(2, 1_500_000);
    assert!(probes.clock_moved(), "another core");
}

#[test]
fn frequencies_and_times_are_read() {
    assert_eq!(read_khz("1600000\n"), 1_600_000);
    assert_eq!(read_khz(" 925779 "), 925_779);
    assert_eq!(read_khz("<unsupported>"), 0);
    assert_eq!(read_khz(""), 0);
    assert_eq!(clock_ns(2, 5), 2_000_000_005);
    assert_eq!(elapsed_ns(100, 350), 250);
    assert_eq!(elapsed_ns(350, 100), 0, "a clock never runs backwards");
}

#[test]
fn cpu_lists_round_trip() {
    assert_eq!(parse_cpu_list("2").unwrap(), vec![2]);
    assert_eq!(parse_cpu_list("2,3").unwrap(), vec![2, 3]);
    assert_eq!(parse_cpu_list("1,3-5").unwrap(), vec![1, 3, 4, 5]);
    assert_eq!(parse_cpu_list(" 0-1 , 3 ").unwrap(), vec![0, 1, 3]);
    // Duplicates and disorder are tolerated and normalised, since these
    // lists come from sysfs and from humans.
    assert_eq!(parse_cpu_list("3,1,3").unwrap(), vec![1, 3]);

    assert_eq!(format_cpu_list(&[2]), "2");
    assert_eq!(format_cpu_list(&[1, 3, 4, 5]), "1,3-5");
    assert_eq!(format_cpu_list(&[0, 1, 3, 4, 5, 9]), "0-1,3-5,9");
    assert_eq!(format_cpu_list(&[5, 1, 4, 3]), "1,3-5");
}

#[test]
fn what_is_formatted_parses_back() {
    let lists: [&[usize]; 4] = [&[7], &[0, 1, 2, 3], &[0, 2, 4, 6], &[1, 2, 3, 9, 11, 12]];
    for cpus in lists {
        assert_eq!(parse_cpu_list(&format_cpu_list(cpus)).unwrap(), cpus);
    }
}

#[test]
fn bad_cpu_lists_are_rejected() {
    assert!(parse_cpu_list("").is_err());
    assert!(parse_cpu_list("  ").is_err());
    assert!(parse_cpu_list("five").is_err());
    assert!(parse_cpu_list("5-1").is_err());
    assert!(parse_cpu_list("1-").is_err());
}

#[test]
fn the_reason_a_cpu_list_is_rejected_quotes_it() {
    let why = parse_cpu_list("fi\"ve").unwrap_err();
    assert!(why.contains("\"fi\\\"ve\""), "{why}");
    assert_ne!(parse_cpu_list("5-1").unwrap_err(), parse_cpu_list("").unwrap_err());
    assert!(parse_cpu_list("5-1").unwrap_err().contains("\"5-1\""));
}

#[test]
fn status_is_consistent_with_the_environment() {
    assert_eq!(status(false, Some("2".to_string()), Some("2".to_string())), Status::Unsupported);
    assert_eq!(status(true, None, Some("0-3".to_string())), Status::NotQuiesced);
    assert_eq!(
        status(true, Some("2".to_string()), Some("2-2".to_string())),
        Status::Pinned { cpus: "2".to_string() },
    );
    assert_eq!(
        status(true, Some("2".to_string()), Some("0-3".to_string())),
        Status::Reserved { cpus: "2".to_string(), affinity: "0-3".to_string() },
    );
    assert_eq!(
        Status::Pinned { cpus: "2".to_string() }.message(),
        "pinned to reserved CPU(s) 2",
    );
    // Whatever was advertised, a list that is reported is the reservation and
    // parses.
    for advertised in ["2", "2-2", " 0-1 , 3 ", "five", "5-1", "1-", "", ","] {
        let reserved = reserved_cpus(Some(advertised), None);
        for affinity in ["2", "0-3", "0-1,3", "five"] {
            match status(true, reserved.clone(), Some(affinity.to_string())) {
                Status::Unsupported => panic!("Linux should never report Unsupported"),
                Status::NotQuiesced => {}
                Status::Pinned { cpus } | Status::Reserved { cpus, .. } => {
                    assert_eq!(Some(&cpus), reserved.as_ref());
                    assert!(parse_cpu_list(&cpus).is_ok(), "{cpus}");
                }
            }
        }
    }
}

#[test]
fn a_malformed_reservation_reserves_nothing() {
    assert_eq!(status(true, Some("five".to_string()), Some("0".to_string())), Status::NotQuiesced);
    assert_eq!(status(true, Some("5-1".to_string()), Some("5".to_string())), Status::NotQuiesced);
    assert_eq!(
        status(true, Some("2".to_string()), Some("five".to_string())),
        Status::Reserved { cpus: "2".to_string(), affinity: "five".to_string() },
    );
}

#[test]
fn a_reservation_is_found_where_it_is_advertised() {
    assert_eq!(reserved_cpus(Some(" 2,3 "), Some("5\n")), Some("2,3".to_string()));
    assert_eq!(reserved_cpus(None, Some("5\n")), Some("5".to_string()));
    assert_eq!(reserved_cpus(Some(" "), None), None);
    assert_eq!(current_affinity(None), None);
    assert_eq!(current_affinity(Some(&[true, true, false, true])), Some("0-1,3".to_string()));
    assert_eq!(cpus_that_fit(&[1, 2000, 3], 1024), vec![1, 3]);
}

#[test]
fn pinning_is_asked_for_and_refused() {
    assert_eq!(pin_if_requested(false, true, None, Some("2-3")), Some(vec![2, 3]));
    assert_eq!(pin_if_requested(true, true, None, Some("2-3")), None);
    assert_eq!(pin_if_requested(false, false, None, Some("2-3")), None);
    assert_eq!(pin_if_requested(false, true, Some("1"), Some("2-3")), None);
    assert_eq!(pin_if_requested(false, true, None, None), None);
    assert_eq!(pin_if_requested(false, true, None, Some("nonsense")), None);
}

#[test]
fn affinity_masks_are_grouped_in_32_bit_words() {
    assert_eq!(affinity_mask(&[0]), "00000001");
    assert_eq!(affinity_mask(&[2]), "00000004");
    assert_eq!(affinity_mask(&[0, 1, 3]), "0000000b");
    assert_eq!(affinity_mask(&[31]), "80000000");
    // Crossing into a second word must produce two comma-separated groups,
    // most significant first.
    assert_eq!(affinity_mask(&[32]), "00000001,00000000");
    assert_eq!(affinity_mask(&[0, 32]), "00000001,00000001");
    assert_eq!(affinity_mask(&[64]), "00000001,00000000,00000000");
}

#[test]
fn requests_are_recognised() {
    assert_eq!(request(&["reserve", "2"]), Request::Reserve("2".to_string()));
    assert_eq!(request(&["restore"]), Request::Restore);
    assert_eq!(request(&["status"]), Request::Status);
    assert_eq!(
        request(&["run", "cargo", "bench"]),
        Request::Run(vec!["cargo".to_string(), "bench".to_string()]),
    );
    assert_eq!(request(&["run"]), Request::Usage);
    assert_eq!(request(&[]), Request::Usage);
    assert_eq!(request(&["restore", "now"]), Request::Usage);
}

#[test]
fn a_command_passes_its_status_on() {
    assert_eq!(exit_code_of(Some(3), None), 3);
    assert_eq!(exit_code_of(None, Some(9)), 137);
    assert_eq!(exit_code_of(None, Some(-1)), 127);
    assert_eq!(status_code(&Status::Pinned { cpus: "2".to_string() }), 0);
    assert_eq!(status_code(&Status::NotQuiesced), 1);
    assert!(is_numbered("12"));
    assert!(!is_numbered("12a"));
    assert!(!is_numbered("self"));
}

#[test]
fn the_rest_of_the_system_keeps_the_other_cpus() {
    let yes = vec![true];
    assert_eq!(split_cpus(&[1], &yes, &vec![vec![1, 3]], 4), Ok(vec![0, 2]));
    assert_eq!(split_cpus(&[9], &vec![false], &vec![vec![9]], 4), Err(ReserveError::NoSuchCpu(9)));
    assert_eq!(
        split_cpus(&[0], &yes, &vec![vec![0, 1]], 2),
        Err(ReserveError::NothingLeft),
        "the sibling goes offline, so nothing remains",
    );
    assert_eq!(ReserveError::NoSuchCpu(9).message(), "no such CPU: 9");
}

#[test]
fn reserving_takes_siblings_offline_and_moves_everything_away() {
    let steps = plan_reservation(&[1], vec![0, 2], &vec![vec![1, 3]], 4, true);
    let turbo = Step::Put {
        path: "/sys/devices/system/cpu/intel_pstate/no_turbo".to_string(),
        contents: "1".to_string(),
    };
    assert_eq!(steps[0], turbo);
    let offline = Step::PutQuietly {
        path: "/sys/devices/system/cpu/cpu3/online".to_string(),
        contents: "0".to_string(),
    };
    assert!(steps.contains(&offline), "{steps:?}");
    assert!(steps.contains(&Step::MoveTasks(vec![0, 2])), "{steps:?}");
    assert!(steps.contains(&Step::SteerInterrupts("00000005".to_string())), "{steps:?}");
    assert!(steps.contains(&Step::Advertise("1".to_string())), "{steps:?}");
}

#[test]
fn saved_settings_come_back() {
    let settings = Settings {
        no_turbo: Some("0\n".to_string()),
        min_perf_pct: Some("22".to_string()),
        governor: Some("powersave".to_string()),
        randomize_va_space: Some("2".to_string()),
        perf_event_paranoid: None,
    };
    assert_eq!(save_original_state(true, &settings), None, "the first save stands");
    let saved = save_original_state(false, &settings).expect("nothing was saved yet");
    assert_eq!(saved, "no_turbo=0\nmin_perf_pct=22\ngovernor=powersave\nrandomize_va_space=2\n");
    let back = load_original_state(Some(&saved));
    assert_eq!(back.no_turbo, Some("0".to_string()));
    assert_eq!(back.governor, settings.governor);
    assert_eq!(back.perf_event_paranoid, None);
    assert_eq!(load_original_state(None).governor, None);
}

#[test]
fn restoring_puts_the_saved_settings_back() {
    let saved = load_original_state(Some("no_turbo=0\ngovernor=powersave\n"));
    let steps = plan_restoration(2, &saved, true);
    let governor = Step::PutQuietly {
        path: "/sys/devices/system/cpu/cpu1/cpufreq/scaling_governor".to_string(),
        contents: "powersave".to_string(),
    };
    assert!(steps.contains(&governor), "{steps:?}");
    assert!(steps.contains(&Step::MoveTasks(vec![0, 1])), "{steps:?}");
    assert_eq!(steps.last(), Some(&Step::Forget));
}

#[test]
fn a_reservation_says_what_it_did() {
    assert_eq!(moved_note(7, &[0, 1, 3]), "moved 7 tasks onto CPU(s) 0-1,3");
    assert_eq!(
        steered_note(5, 2),
        "IRQs steered off the reserved CPUs: 5 moved, 2 immovable",
    );
    assert_eq!(
        ready_note(&[2], &[0, 1, 3]),
        "\nready: CPU(s) 2 reserved\n\nRun benchmarks through the pinning wrapper (as your normal \
         user):\n\n  bench-quiet run cargo test --release\n\nAnything not run that way lands on the \
         housekeeping CPUs (0-1,3) \nand gains nothing.\n\nUndo with:  sudo bench-quiet restore",
    );
    let saved = load_original_state(Some("governor=schedutil\n"));
    assert_eq!(
        restored_note(4, &saved, 12),
        "restored: all 4 CPUs online, schedutil governor, 12 tasks unpinned, irqbalance running",
    );
    let unsaved = load_original_state(None);
    assert!(restored_note(4, &unsaved, 0).contains("powersave governor"));
}
