//! Names of well-known TCP ports.

use vstd::prelude::*;

verus! {

/// The name of the service at a well-known port; none for any other port.
pub open spec fn service_at(port: int) -> Option<Seq<char>> {
    if port == 20 || port == 21 {
        Some("ftp"@)
    } else if port == 22 {
        Some("ssh"@)
    } else if port == 23 {
        Some("telnet"@)
    } else if port == 25 {
        Some("smtp"@)
    } else if port == 53 {
        Some("domain"@)
    } else if port == 67 || port == 68 {
        Some("dhcp"@)
    } else if port == 80 {
        Some("http"@)
    } else if port == 110 {
        Some("pop3"@)
    } else if port == 123 {
        Some("ntp"@)
    } else if port == 143 {
        Some("imap"@)
    } else if port == 179 {
        Some("bgp"@)
    } else if port == 389 {
        Some("ldap"@)
    } else if port == 443 {
        Some("https"@)
    } else if port == 445 {
        Some("microsoft-ds"@)
    } else if port == 465 {
        Some("smtps"@)
    } else if port == 587 {
        Some("submission"@)
    } else if port == 631 {
        Some("ipp"@)
    } else if port == 993 {
        Some("imaps"@)
    } else if port == 995 {
        Some("pop3s"@)
    } else if port == 3306 {
        Some("mysql"@)
    } else if port == 3389 {
        Some("rdp"@)
    } else if port == 5432 {
        Some("postgresql"@)
    } else if port == 6379 {
        Some("redis"@)
    } else if port == 8080 {
        Some("http-alt"@)
    } else if port == 8443 {
        Some("https-alt"@)
    } else {
        None
    }
}

/// The name of the service at a well-known port. An unknown port has none, rather than a made-up
/// one.
#[must_use]
pub fn service_name(port: u16) -> (res: Option<&'static str>)
    ensures
        match res {
            Some(name) => service_at(port as int) == Some(name@),
            None => service_at(port as int) is None,
        },
{
    match port {
        20 | 21 => Some("ftp"),
        22 => Some("ssh"),
        23 => Some("telnet"),
        25 => Some("smtp"),
        53 => Some("domain"),
        67 | 68 => Some("dhcp"),
        80 => Some("http"),
        110 => Some("pop3"),
        123 => Some("ntp"),
        143 => Some("imap"),
        179 => Some("bgp"),
        389 => Some("ldap"),
        443 => Some("https"),
        445 => Some("microsoft-ds"),
        465 => Some("smtps"),
        587 => Some("submission"),
        631 => Some("ipp"),
        993 => Some("imaps"),
        995 => Some("pop3s"),
        3306 => Some("mysql"),
        3389 => Some("rdp"),
        5432 => Some("postgresql"),
        6379 => Some("redis"),
        8080 => Some("http-alt"),
        8443 => Some("https-alt"),
        _ => None,
    }
}

/// The ports that have a name, and the name of each; no other port has one.
pub proof fn law_only_well_known_ports_have_names(port: u16)
    ensures
        ({
            let known = map![
                20int => "ftp"@,
                21int => "ftp"@,
                22int => "ssh"@,
                23int => "telnet"@,
                25int => "smtp"@,
                53int => "domain"@,
                67int => "dhcp"@,
                68int => "dhcp"@,
                80int => "http"@,
                110int => "pop3"@,
                123int => "ntp"@,
                143int => "imap"@,
                179int => "bgp"@,
                389int => "ldap"@,
                443int => "https"@,
                445int => "microsoft-ds"@,
                465int => "smtps"@,
                587int => "submission"@,
                631int => "ipp"@,
                993int => "imaps"@,
                995int => "pop3s"@,
                3306int => "mysql"@,
                3389int => "rdp"@,
                5432int => "postgresql"@,
                6379int => "redis"@,
                8080int => "http-alt"@,
                8443int => "https-alt"@,
            ];
            &&& service_at(port as int) is Some <==> known.contains_key(port as int)
            &&& known.contains_key(port as int) ==> service_at(port as int) == Some(
                known[port as int],
            )
        }),
{
}

} // verus!
