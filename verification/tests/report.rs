use edgeproxy::config::blueprint::ValidationError;
use edgeproxy::config::report::{render_interpolation_errors, render_validation_errors};
use edgeproxy::config::resolve::InterpolationError;

#[test]
fn validation_report_lists_every_problem() {
    let errors = vec![
        ValidationError { path: "listen".to_string(), message: "bad".to_string() },
        ValidationError { path: "backends[0].name".to_string(), message: "must not be empty".to_string() },
    ];
    assert_eq!(
        render_validation_errors(&errors),
        "2 config validation error(s):\n  - listen: bad\n  - backends[0].name: must not be empty\n"
    );
    assert_eq!(render_validation_errors(&vec![]), "0 config validation error(s):\n");
}

#[test]
fn interpolation_report_lists_every_error() {
    let errors = vec![InterpolationError {
        file: "a.yaml".to_string(),
        var: "HOST".to_string(),
        message: "undefined variable".to_string(),
    }];
    assert_eq!(
        render_interpolation_errors(&errors),
        "1 interpolation error(s):\n  - HOST (a.yaml): undefined variable\n"
    );
}
