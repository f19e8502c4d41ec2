use sigma_updates::client::is_deb_file_name;
use sigma_updates::client::collected_debs;
use sigma_updates::deb_paths::{sorted_unique_paths, PathPart};
use sigma_updates::client::{
    check_access_token, check_token_status, present, token_url_from_issuer, AuthPlan, Cli,
    ClientError, Command,
};
use sigma_updates::control::{DebControl, DebPackage};
use sigma_updates::depends::PackageRef;
use sigma_updates::push::{check_push, plan_push, refusal_message, topo_sort, LocalPackage};

fn local(name: &str, depends: &str) -> LocalPackage {
    let control = DebControl::parse(&format!(
        "Package: {name}\nVersion: 1.0\nArchitecture: all\nDepends: {depends}\n"
    ))
    .expect("control parses");
    LocalPackage {
        path: format!("{name}.deb"),
        filename: format!("{name}.deb"),
        control,
    }
}

fn remote(name: &str, version: &str, provides: &[&str]) -> DebPackage {
    DebPackage {
        filename: format!("{name}_{version}_all.deb"),
        name: name.to_string(),
        version: version.to_string(),
        architecture: "all".to_string(),
        size_bytes: 1,
        download_path: format!("/packages/{name}_{version}_all.deb"),
        depends: Vec::new(),
        pre_depends: Vec::new(),
        provides: provides
            .iter()
            .map(|p| PackageRef {
                name: p.to_string(),
            })
            .collect(),
        description: None,
    }
}

fn cli() -> Cli {
    Cli {
        url: None,
        token: None,
        oidc_token_url: None,
        oidc_issuer: None,
        oidc_client_id: None,
        oidc_client_secret: None,
        command: Command::List,
    }
}

#[test]
fn token_url_appends_path() {
    assert_eq!(
        token_url_from_issuer("https://keycloak.example/realms/multcorp/"),
        "https://keycloak.example/realms/multcorp/protocol/openid-connect/token"
    );
}

#[test]
fn token_url_trims_spaces_and_every_trailing_slash() {
    assert_eq!(
        token_url_from_issuer("  https://k.example/realms/r// \n"),
        "https://k.example/realms/r/protocol/openid-connect/token"
    );
}

#[test]
fn orders_dependencies_first() {
    let locals = vec![local("b", "a"), local("a", ""), local("c", "b")];
    let order = topo_sort(&locals).expect("acyclic");
    let names: Vec<&str> = order
        .iter()
        .map(|&i| locals[i].control.package.as_str())
        .collect();
    assert_eq!(names, ["a", "b", "c"]);
}

#[test]
fn detects_cycles() {
    let locals = vec![local("a", "b"), local("b", "a")];
    assert!(topo_sort(&locals).is_err());
}

#[test]
fn roots_come_first_in_name_order() {
    let locals = vec![local("z", ""), local("m", "z"), local("a", "")];
    let order = topo_sort(&locals).unwrap();
    let names: Vec<&str> = order
        .iter()
        .map(|&i| locals[i].control.package.as_str())
        .collect();
    assert_eq!(names, ["a", "z", "m"]);
}

#[test]
fn push_goes_ahead_when_remote_and_earlier_locals_satisfy() {
    let locals = vec![local("app", "lib (>= 1.0), virt"), local("lib", "base")];
    let plan = plan_push(&[remote("base", "3", &["virt"])], &locals).unwrap();
    let names: Vec<&str> = plan
        .order
        .iter()
        .map(|l| l.control.package.as_str())
        .collect();
    assert_eq!(names, ["lib", "app"]);
    assert!(plan.missing.is_empty());
    assert!(check_push(&plan, false).is_ok());
}

#[test]
fn push_is_refused_when_a_dependency_is_missing() {
    let locals = vec![local("app", "lib (>= 2.0), other")];
    let plan = plan_push(&[remote("lib", "1.5", &[])], &locals).unwrap();
    assert_eq!(plan.missing.len(), 1);
    assert_eq!(plan.missing[0].package, "app");
    assert_eq!(plan.missing[0].missing.len(), 2);
    let expected = "refusing publish \u{2014} missing dependencies: app needs: lib (>= 2.0), other";
    assert_eq!(refusal_message(&plan.missing), expected);
    match check_push(&plan, false) {
        Err(ClientError::Message(m)) => assert_eq!(m, expected),
        other => panic!("unexpected {other:?}"),
    }
    assert!(check_push(&plan, true).is_ok());
}

#[test]
fn present_trims_and_drops_blank_values() {
    assert_eq!(present(&Some("  x ".to_string())), Some("x".to_string()));
    assert_eq!(present(&Some(" \t".to_string())), None);
    assert_eq!(present(&None), None);
}

#[test]
fn base_url_defaults_to_the_local_server() {
    let mut c = cli();
    assert_eq!(c.base_url(), "http://127.0.0.1:8080");
    c.url = Some(" https://updates.example ".to_string());
    assert_eq!(c.base_url(), "https://updates.example");
}

#[test]
fn auth_uses_the_shared_token_without_oidc_options() {
    let mut c = cli();
    c.token = Some(" secret ".to_string());
    match c.auth_plan() {
        Ok(AuthPlan::Token(Some(t))) => assert_eq!(t, "secret"),
        other => panic!("unexpected {other:?}"),
    }
}

#[test]
fn auth_derives_the_token_endpoint_from_the_issuer() {
    let mut c = cli();
    c.token = Some("ignored".to_string());
    c.oidc_client_id = Some("ci".to_string());
    c.oidc_client_secret = Some("s3".to_string());
    c.oidc_issuer = Some("https://k/realms/r/".to_string());
    match c.auth_plan() {
        Ok(AuthPlan::ClientCredentials {
            token_url,
            client_id,
            client_secret,
        }) => {
            assert_eq!(token_url, "https://k/realms/r/protocol/openid-connect/token");
            assert_eq!(client_id, "ci");
            assert_eq!(client_secret, "s3");
        }
        other => panic!("unexpected {other:?}"),
    }
}

#[test]
fn auth_reports_each_missing_oidc_option() {
    let mut c = cli();
    c.oidc_issuer = Some("https://k".to_string());
    assert_eq!(
        c.auth_plan().unwrap_err(),
        "OIDC auth requires --oidc-client-id / SIGMA_OIDC_CLIENT_ID"
    );
    c.oidc_client_id = Some("ci".to_string());
    assert_eq!(
        c.auth_plan().unwrap_err(),
        "OIDC auth requires --oidc-client-secret / SIGMA_OIDC_CLIENT_SECRET"
    );
    c.oidc_client_secret = Some("s".to_string());
    c.oidc_issuer = None;
    assert_eq!(
        c.auth_plan().unwrap_err(),
        "OIDC auth requires --oidc-token-url / SIGMA_OIDC_TOKEN_URL or --oidc-issuer / SIGMA_OIDC_ISSUER"
    );
}

#[test]
fn token_response_checks() {
    assert_eq!(check_token_status(200, "b".to_string()).unwrap(), "b");
    match check_token_status(401, "nope".to_string()) {
        Err(ClientError::Status { status, body }) => {
            assert_eq!(status, 401);
            assert_eq!(body, "nope");
        }
        other => panic!("unexpected {other:?}"),
    }
    assert_eq!(check_access_token("tok".to_string()).unwrap(), "tok");
    match check_access_token("  ".to_string()) {
        Err(ClientError::Message(m)) => assert_eq!(m, "token response missing access_token"),
        other => panic!("unexpected {other:?}"),
    }
}

#[test]
fn client_error_messages() {
    assert_eq!(
        ClientError::Status {
            status: 503,
            body: "down".to_string()
        }
        .message(),
        "unexpected status 503: down"
    );
    assert_eq!(ClientError::Http("x".to_string()).message(), "http error: x");
    assert_eq!(ClientError::Json("y".to_string()).message(), "json error: y");
    assert_eq!(ClientError::Io("z".to_string()).message(), "io error: z");
    assert_eq!(ClientError::Message("m".to_string()).message(), "m");
}

#[test]
fn deb_file_names_by_extension() {
    assert!(is_deb_file_name("a_1.0_all.deb"));
    assert!(is_deb_file_name("A.DEB"));
    assert!(!is_deb_file_name(".deb"));
    assert!(!is_deb_file_name("a.debx"));
    assert!(!is_deb_file_name("deb"));
}

#[test]
fn paths_sort_by_components_once_each() {
    let parts = |s: &str| -> Vec<PathPart> {
        s.split('/').map(|c| PathPart::Normal(c.to_string())).collect()
    };
    let paths = vec![parts("a-b/x.deb"), parts("a/x.deb"), parts("a/x.deb"), parts("a/w.deb")];
    let order = sorted_unique_paths(&paths);
    assert_eq!(order, vec![3, 1, 0]);
    assert!(collected_debs(Vec::<String>::new()).is_err());
    assert_eq!(collected_debs(vec![1, 2]).unwrap(), vec![1, 2]);
}
