use alaybey::helper::{check_file_ext, create_file, get_command, FileError, Operation, DEFAULT_RUNTME_STACK_SZE};

#[test]
fn get_command_names() {
    assert_eq!(get_command("build"), Operation::Buid);
    assert_eq!(get_command("run"), Operation::Run);
    assert_eq!(get_command("Build"), Operation::Unknown);
    assert_eq!(get_command(""), Operation::Unknown);
    assert_eq!(get_command("running"), Operation::Unknown);
}

#[test]
fn check_file_ext_cases() {
    assert_eq!(check_file_ext("prog.alaybey", "alaybey"), Ok(true));
    assert_eq!(check_file_ext("prog.alaybeyvm", "alaybey"), Ok(false));
    assert_eq!(check_file_ext("prog.alaybeyvm", "alaybeyvm"), Ok(true));
    assert_eq!(check_file_ext("my.prog.alaybey", "alaybey"), Ok(true));
    assert_eq!(check_file_ext("my.alaybey.txt", "alaybey"), Ok(false));
    assert_eq!(check_file_ext("a.b.c", "c"), Ok(true));
    assert_eq!(check_file_ext("a.b.c", "b"), Ok(false));
    assert_eq!(check_file_ext("a.b.c", "b.c"), Ok(false));
    assert_eq!(check_file_ext("prog.", ""), Ok(true));
    assert_eq!(check_file_ext("prog", "alaybey"), Err(FileError::FetchFile));
}

#[test]
fn create_file_names_the_output() {
    assert_eq!(create_file("prog.alaybey").unwrap(), "prog.alaybeyvm");
    assert_eq!(create_file("noext").unwrap(), "noext.alaybeyvm");
    assert_eq!(create_file("a.b.c").unwrap(), "a.alaybeyvm");
    assert_eq!(create_file(".hidden").unwrap(), ".alaybeyvm");
}

#[test]
fn file_error_messages() {
    assert_eq!(FileError::FetchFile.message(), "unable to fetch file extenssion..");
    assert_eq!(FileError::Unknown.message(), "invalid command! Use build or run command..");
    assert_eq!(FileError::Metadata.message(), "unable to read file metadata..");
    assert_eq!(DEFAULT_RUNTME_STACK_SZE, 512);
}
