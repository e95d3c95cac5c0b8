use carlinkit_otalib::modprobe::{
    join_path, load_modules_info, modules_info_paths, normalize_module_name,
    validate_dependency_paths, ModprobeError, ModprobeUtil,
};
use carlinkit_otalib::modules_info::ModulesInfo;

#[test]
fn test_modules_info() {
    let mut repo = ModulesInfo::new();

    let dep_file = [
        "kernel/crypto/gcm.ko:",
        "kernel/crypto/ccm.ko:",
        "kernel/crypto/ghash-generic.ko: kernel/lib/crypto/gf128mul.ko",
        "kernel/lib/crypto/libarc4.ko:",
        "kernel/lib/crypto/gf128mul.ko: kernel/crypto/crc7.ko kernel/crypto/ccm.ko",
        "kernel/lib/crc7.ko:",
    ];

    let builtin_file = ["kernel/crypto/gcm.ko", "kernel/crypto/ccm.ko"];

    for line in dep_file {
        repo.feed_modules_dep_line(line.as_bytes());
    }

    for line in builtin_file {
        repo.feed_modules_builtin_line(line.as_bytes());
    }

    assert_eq!(repo.deps_of("ghash-generic").unwrap().as_slice(), &["gf128mul"]);
    assert!(repo.is_builtin("gcm"));
    assert!(repo.is_builtin("ccm"));
    assert!(!repo.is_builtin("crc7"));

    let recursive_dep = [
        "kernel/test1.ko: kernel/test2.ko",
        "kernel/test2.ko: kernel/test3.ko",
        "kernel/test3.ko: kernel/test1.ko",
    ];

    for line in recursive_dep {
        repo.feed_modules_dep_line(line.as_bytes());
    }

    assert_eq!(
        repo.resolve_load_order("ghash-generic").unwrap().as_slice(),
        ["crc7", "gf128mul", "ghash-generic"]
    );

    assert!(repo.resolve_load_order("test1").is_err());
    assert!(repo.resolve_load_order("test2").is_err());
    assert!(repo.resolve_load_order("test3").is_err());

    assert_eq!(repo.resolve_path("test1").unwrap(), "kernel/test1.ko");
}

const DEP: &str = "kernel/crypto/gcm.ko:\n\
kernel/crypto/ccm.ko:\n\
kernel/crypto/ghash-generic.ko: kernel/lib/crypto/gf128mul.ko\n\
kernel/lib/crypto/gf128mul.ko: kernel/crypto/crc7.ko kernel/crypto/ccm.ko\n\
kernel/lib/crc7.ko:\n\
kernel/drivers/a.ko: kernel/drivers/b.ko\n\
kernel/drivers/xz.ko.xz:\n\
kernel/test1.ko: kernel/test2.ko\n\
kernel/test2.ko: kernel/test1.ko\n";

const BUILTIN: &str = "kernel/crypto/gcm.ko\nkernel/crypto/ccm.ko\n";

fn info() -> ModulesInfo {
    load_modules_info(DEP.as_bytes(), Some(BUILTIN.as_bytes())).unwrap()
}

#[test]
fn load_order_puts_dependencies_first() {
    let repo = info();
    let order = repo.resolve_load_order("ghash-generic").unwrap();
    assert_eq!(order.as_slice(), ["crc7", "gf128mul", "ghash-generic"]);
    assert_eq!(repo.resolve_load_order("crc7").unwrap().as_slice(), ["crc7"]);
    assert_eq!(repo.resolve_load_order("test2"), Err("dependency cycle detected"));
}

#[test]
fn later_lines_replace_earlier_ones() {
    let mut repo = ModulesInfo::new();
    repo.feed_modules_dep_line(b"kernel/x.ko: kernel/y.ko");
    repo.feed_modules_dep_line(b"other/x.ko: kernel/z.ko");
    assert_eq!(repo.deps_of("x").unwrap().as_slice(), &["z"]);
    assert_eq!(repo.resolve_path("x").unwrap(), "other/x.ko");
    assert!(repo.deps_of("y").is_none());
    assert!(repo.resolve_path("nothing").is_none());
}

#[test]
fn module_names_and_paths() {
    assert_eq!(normalize_module_name("path/to/foo.ko.xz").unwrap(), "foo");
    assert_eq!(normalize_module_name("bar").unwrap(), "bar");
    assert_eq!(
        normalize_module_name("dir/.ko"),
        Err(ModprobeError::ModuleNotFound(String::new()))
    );
    let long = "m".repeat(129);
    assert_eq!(normalize_module_name(&long), Err(ModprobeError::PushStrFailed));
    assert_eq!(join_path("/lib/modules", "x.ko", 320).unwrap(), "/lib/modules/x.ko");
    assert_eq!(join_path("/lib/modules/", "x.ko", 320).unwrap(), "/lib/modules/x.ko");
    assert_eq!(join_path("/lib/modules", "x.ko", 5), Err(ModprobeError::PushStrFailed));
    let (dep, builtin) = modules_info_paths("/lib/modules/5.10").unwrap();
    assert_eq!(dep, "/lib/modules/5.10/modules.dep");
    assert_eq!(builtin, "/lib/modules/5.10/modules.builtin");
}

#[test]
fn modprobe_plans_dependencies_in_order() {
    let repo = info();
    let (plan, err) = ModprobeUtil::modprobe_with_params(&repo, "/lib/modules", "ghash-generic", "debug=1");
    assert_eq!(err, None);
    assert_eq!(
        plan,
        vec![
            ("crc7".to_string(), "/lib/modules/kernel/lib/crc7.ko".to_string(), String::new()),
            (
                "gf128mul".to_string(),
                "/lib/modules/kernel/lib/crypto/gf128mul.ko".to_string(),
                String::new()
            ),
            (
                "ghash-generic".to_string(),
                "/lib/modules/kernel/crypto/ghash-generic.ko".to_string(),
                "debug=1".to_string()
            ),
        ]
    );
    let (paths, err) = ModprobeUtil::for_each_dependency_module_path(&repo, "/lib/modules", "gf128mul");
    assert_eq!(err, None);
    assert_eq!(
        paths,
        vec![
            "/lib/modules/kernel/lib/crc7.ko".to_string(),
            "/lib/modules/kernel/lib/crypto/gf128mul.ko".to_string()
        ]
    );
}

#[test]
fn modprobe_errors() {
    let repo = info();
    let (plan, err) = ModprobeUtil::modprobe(&repo, "/lib/modules", "gcm");
    assert!(plan.is_empty());
    assert_eq!(err, None);
    let (plan, err) = ModprobeUtil::modprobe(&repo, "/lib/modules", "missing");
    assert!(plan.is_empty());
    assert_eq!(err, Some(ModprobeError::ModuleNotFound("missing".to_string())));
    let (_, err) = ModprobeUtil::modprobe(&repo, "/lib/modules", "a");
    assert_eq!(
        err,
        Some(ModprobeError::DependencyNotFound {
            dependency: "b".to_string(),
            for_module: "a".to_string()
        })
    );
    let (_, err) = ModprobeUtil::modprobe(&repo, "/lib/modules", "test1");
    assert_eq!(
        err,
        Some(ModprobeError::ModuleLoadFailed {
            module: "test1".to_string(),
            error: "dependency cycle detected"
        })
    );
    let (_, err) = ModprobeUtil::modprobe(&repo, "/lib/modules", "xz");
    assert_eq!(err, Some(ModprobeError::ModuleCompressed("xz".to_string())));
}

#[test]
fn long_lines_are_refused() {
    let long = format!("kernel/{}.ko:\n", "a".repeat(3000));
    assert_eq!(
        load_modules_info(long.as_bytes(), None).err(),
        Some(ModprobeError::PushStrFailed)
    );
    let repo = load_modules_info(b"kernel/a.ko:\n", None).unwrap();
    assert!(!repo.is_builtin("a"));
    assert_eq!(repo.resolve_path("a").unwrap(), "kernel/a.ko");
}

#[test]
fn dependency_walk_outcomes() {
    let mut repo = ModulesInfo::new();
    repo.feed_modules_dep_line(b"kernel/a.ko: kernel/b.ko kernel/c.ko");
    repo.feed_modules_dep_line(b"kernel/b.ko: kernel/c.ko");
    repo.feed_modules_dep_line(b"kernel/c.ko:");
    repo.feed_modules_dep_line(b"kernel/d.ko: kernel/e.ko");
    assert_eq!(validate_dependency_paths(&repo, "a"), Ok(()));
    assert_eq!(validate_dependency_paths(&repo, "c"), Ok(()));
    assert_eq!(
        validate_dependency_paths(&repo, "d"),
        Err(ModprobeError::DependencyNotFound {
            dependency: "e".to_string(),
            for_module: "d".to_string()
        })
    );
    assert_eq!(
        validate_dependency_paths(&repo, "zz"),
        Err(ModprobeError::ModuleNotFound("zz".to_string()))
    );
    let long = "n".repeat(129);
    assert_eq!(validate_dependency_paths(&repo, &long), Err(ModprobeError::PushStrFailed));

    // a dependency name longer than a module name may be
    let mut named = ModulesInfo::new();
    named.feed_modules_dep_line(format!("kernel/top.ko: kernel/{}.ko", long).as_bytes());
    named.feed_modules_dep_line(format!("kernel/{}.ko:", long).as_bytes());
    assert_eq!(validate_dependency_paths(&named, "top"), Err(ModprobeError::PushStrFailed));

    // more dependencies waiting on the walk than it has room for
    let mut wide = ModulesInfo::new();
    let mut line = String::from("kernel/top.ko:");
    for i in 0..600 {
        line.push_str(&format!(" kernel/m{}.ko", i));
        wide.feed_modules_dep_line(format!("kernel/m{}.ko:", i).as_bytes());
    }
    wide.feed_modules_dep_line(line.as_bytes());
    assert_eq!(validate_dependency_paths(&wide, "top"), Err(ModprobeError::PushStrFailed));
    assert_eq!(validate_dependency_paths(&wide, "m7"), Ok(()));
}
