use benchmark::bench::analysis::{
    next_run_action, timer_arguments, timer_program, RunAction, SpawnOutcome,
};
use benchmark::bench::graphs::{cpu_graph, mem_graph, time_graph};
use benchmark::error::BenchError;
use benchmark::utils::{
    check_in_current_dir, checker_program, locate_app, output_dir, output_path, resolve_app,
    split_command, split_string,
};

#[test]
fn split_string_keeps_empty_pieces() {
    assert_eq!(split_string("a  b", ' '), vec!["a", "", "b"]);
    assert_eq!(split_string("", ' '), vec![""]);
    assert_eq!(split_string("x\n", '\n'), vec!["x", ""]);
}

#[test]
fn split_command_separates_application_and_parameters() {
    let (app, params) = split_command("./app -n 3");
    assert_eq!(app, "./app");
    assert_eq!(params, vec!["-n", "3"]);
    let (app, params) = split_command("app");
    assert_eq!(app, "app");
    assert!(params.is_empty());
}

#[test]
fn split_command_rejoins_to_the_command_line() {
    for line in ["./app -n 3", " lead", "trail ", "a  b", ""] {
        let (app, params) = split_command(line);
        let mut all = vec![app];
        all.extend(params);
        assert_eq!(all.join(" "), line);
    }
}

#[test]
fn resolve_app_with_a_path() {
    assert_eq!(
        resolve_app("/opt/bench/target/app", "/home", '/'),
        ("/opt/bench/target/app".to_string(), "app".to_string())
    );
    assert_eq!(resolve_app("dir/", "/home", '/'), ("dir/".to_string(), "".to_string()));
}

#[test]
fn resolve_app_in_the_working_directory() {
    assert_eq!(
        resolve_app("app", "/home/me", '/'),
        ("/home/me/app".to_string(), "app".to_string())
    );
}

#[test]
fn locate_then_check_found() {
    let loc = locate_app("./app -v", "/cwd", '/');
    assert_eq!(loc.full, "./app");
    assert_eq!(loc.short, "app");
    let r = check_in_current_dir(loc, true);
    match r {
        Ok((full, short, params)) => {
            assert_eq!(full, "./app");
            assert_eq!(short, "app");
            assert_eq!(params, vec!["-v"]);
        }
        Err(_) => panic!("expected the application to be found"),
    }
}

#[test]
fn check_not_found_names_the_application() {
    let loc = locate_app("missing", "/cwd", '/');
    match check_in_current_dir(loc, false) {
        Err(BenchError::AppNotFound(m)) => assert_eq!(m, "Could not find application: missing."),
        _ => panic!("expected AppNotFound"),
    }
}

#[test]
fn error_message_is_its_text() {
    assert_eq!(BenchError::IOError("disk full".to_string()).message(), "disk full");
    assert_eq!(BenchError::Visualization("bad".to_string()).message(), "bad");
}

#[test]
fn programs_by_platform() {
    assert_eq!(checker_program(true), "dir");
    assert_eq!(checker_program(false), "ls");
    assert_eq!(timer_program(true), "gtime");
    assert_eq!(timer_program(false), "/usr/bin/time");
}

#[test]
fn output_paths() {
    assert_eq!(output_dir("app"), "bench_app");
    assert_eq!(output_path("app", "cpu.svg", '/'), "bench_app/cpu.svg");
}

#[test]
fn timer_arguments_put_verbose_first() {
    let params = vec!["-n".to_string(), "3".to_string()];
    assert_eq!(timer_arguments("/x/app", &params), vec!["-v", "/x/app", "-n", "3"]);
}

#[test]
fn graphs_carry_their_labels() {
    let c = cpu_graph(vec![144, -1]);
    assert_eq!(c.points, vec![144i64, -1]);
    assert_eq!((c.file, c.title, c.y_axis), ("cpu.svg", "CPU occupancy", "cpus [%]"));
    let t = time_graph(vec![50, 60]);
    assert_eq!(t.points, vec![50, 60]);
    assert_eq!((t.file, t.title, t.y_axis), ("time.svg", "Processing time", "time [ms]"));
    let m = mem_graph(vec![19076]);
    assert_eq!(m.points, vec![19076i64]);
    assert_eq!((m.file, m.title, m.y_axis), ("mem.svg", "Memory usage", "memory [kB]"));
}

#[test]
fn run_loop_launches_in_order_then_finishes() {
    assert_eq!(next_run_action(0, 2, None), RunAction::Launch(0));
    assert_eq!(next_run_action(1, 2, Some(SpawnOutcome::Collected)), RunAction::Launch(1));
    assert_eq!(next_run_action(2, 2, Some(SpawnOutcome::Collected)), RunAction::Finish);
    assert_eq!(next_run_action(0, 0, None), RunAction::Finish);
    assert_eq!(next_run_action(1, 3, Some(SpawnOutcome::Failed)), RunAction::Abort);
}
