use treecat::options::{parse_args, Options};

fn args(list: &[&str]) -> Vec<String> {
    list.iter().map(|s| s.to_string()).collect()
}

#[test]
fn no_arguments_give_the_defaults() {
    let options = parse_args(&args(&[]));
    assert_eq!(
        options,
        Options {
            include_hidden: false,
            summary: false,
            list_output: false,
            tree_only: false,
            directory: ".".to_string(),
        }
    );
}

#[test]
fn each_flag_sets_its_option() {
    assert!(parse_args(&args(&["-a"])).include_hidden);
    assert!(parse_args(&args(&["-s"])).summary);
    assert!(parse_args(&args(&["-l"])).list_output);
    assert!(parse_args(&args(&["-t"])).tree_only);
    let one = parse_args(&args(&["-s"]));
    assert!(!one.include_hidden && !one.list_output && !one.tree_only);
    assert_eq!(one.directory, ".");
}

#[test]
fn flags_may_stand_in_any_order() {
    let left = parse_args(&args(&["-a", "src", "-s", "-t"]));
    let right = parse_args(&args(&["-t", "-s", "-a", "src"]));
    assert_eq!(left, right);
    assert_eq!(
        left,
        Options {
            include_hidden: true,
            summary: true,
            list_output: false,
            tree_only: true,
            directory: "src".to_string(),
        }
    );
}

#[test]
fn the_last_argument_that_is_no_flag_names_the_directory() {
    assert_eq!(parse_args(&args(&["one", "two"])).directory, "two");
    assert_eq!(parse_args(&args(&["one", "-a", "two", "-l"])).directory, "two");
    assert_eq!(parse_args(&args(&["-a", "-a", "x"])).directory, "x");
}

#[test]
fn an_unknown_flag_is_taken_for_the_directory() {
    let options = parse_args(&args(&["-x"]));
    assert_eq!(options.directory, "-x");
    assert!(!options.include_hidden);
    assert_eq!(parse_args(&args(&["-as"])).directory, "-as");
    assert_eq!(parse_args(&args(&[""])).directory, "");
}

#[test]
fn the_result_goes_to_standard_output_for_list_or_tree_only() {
    assert!(!parse_args(&args(&[])).to_stdout());
    assert!(!parse_args(&args(&["-a", "-s"])).to_stdout());
    assert!(parse_args(&args(&["-l"])).to_stdout());
    assert!(parse_args(&args(&["-t"])).to_stdout());
    assert!(parse_args(&args(&["-t", "-l"])).to_stdout());
}

#[test]
fn the_context_takes_over_the_options() {
    let options = parse_args(&args(&["-s", "-a", "proj"]));
    let with = options.context(true);
    assert_eq!(with.root, "proj");
    assert!(with.include_hidden);
    assert!(with.summary);
    assert!(with.honor_ignore);
    let without = parse_args(&args(&[])).context(false);
    assert_eq!(without.root, ".");
    assert!(!without.include_hidden && !without.summary && !without.honor_ignore);
}
