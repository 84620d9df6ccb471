use keytool::tab::Tab;

const SELECTED: &str = "inline-block w-full p-3 text-slate-900 bg-slate-200 active focus:outline-none dark:bg-slate-700 dark:text-white";
const OTHER: &str = "inline-block w-full p-3 bg-slate-50 hover:text-slate-700 hover:bg-slate-100 focus:outline-none dark:hover:text-white dark:bg-slate-900 dark:hover:bg-slate-700";

#[test]
fn class_of_the_selected_tab() {
    assert_eq!(
        Tab::class(Tab::Generate, Tab::Generate),
        format!("{} rounded-t-lg sm:rounded-none sm:rounded-s-lg", SELECTED)
    );
    assert_eq!(Tab::class(Tab::Validate, Tab::Validate), SELECTED);
    assert_eq!(
        Tab::class(Tab::Activate, Tab::Activate),
        format!("{} rounded-b-lg sm:rounded-none sm:rounded-e-lg", SELECTED)
    );
}

#[test]
fn class_of_another_tab() {
    assert_eq!(
        Tab::class(Tab::Generate, Tab::Validate),
        format!("{} rounded-t-lg sm:rounded-none sm:rounded-s-lg", OTHER)
    );
    assert_eq!(Tab::class(Tab::Validate, Tab::Activate), OTHER);
    assert_eq!(
        Tab::class(Tab::Activate, Tab::Generate),
        format!("{} rounded-b-lg sm:rounded-none sm:rounded-e-lg", OTHER)
    );
}

#[test]
fn tab_names() {
    assert_eq!(Tab::Generate.name(), "generate");
    assert_eq!(Tab::Validate.name(), "validate");
    assert_eq!(Tab::Activate.name(), "activate");
}

#[test]
fn tab_of_an_address() {
    assert_eq!(Tab::from_params(false, false), Tab::Generate);
    assert_eq!(Tab::from_params(false, true), Tab::Validate);
    assert_eq!(Tab::from_params(true, false), Tab::Activate);
    assert_eq!(Tab::from_params(true, true), Tab::Activate);
}
